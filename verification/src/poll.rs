//! The set of file descriptors that the supervisor waits on, with an item of
//! the caller's attached to each.

use vstd::prelude::*;
use slab::Slab;

verus! {

/// The bit of `poll(2)`'s `POLLIN`, with the value that Linux gives it.
pub const INPUT_BITS: i16 = 1;

/// The bit of `poll(2)`'s `POLLOUT`, with the value that Linux gives it.
pub const OUTPUT_BITS: i16 = 4;

/// A set of the events of `poll(2)`, as its bits.
#[derive(Copy, Clone, Debug)]
pub struct PollEvents {
    pub bits: i16,
}

impl PollEvents {
    /// No event.
    pub fn none() -> (r: PollEvents)
        ensures
            r.bits == 0,
    {
        PollEvents { bits: 0 }
    }

    /// Input is ready.
    pub fn input() -> (r: PollEvents)
        ensures
            r.bits == INPUT_BITS,
    {
        PollEvents { bits: INPUT_BITS }
    }

    /// Output is possible.
    pub fn output() -> (r: PollEvents)
        ensures
            r.bits == OUTPUT_BITS,
    {
        PollEvents { bits: OUTPUT_BITS }
    }

    /// Whether the two sets share an event.
    pub fn contains(self, events: PollEvents) -> (r: bool)
        ensures
            r == (self.bits & events.bits != 0),
    {
        self.bits & events.bits != 0
    }

    /// The union of the two sets.
    pub fn union(self, other: PollEvents) -> (r: PollEvents)
        ensures
            r.bits == self.bits | other.bits,
    {
        PollEvents { bits: self.bits | other.bits }
    }
}

impl core::ops::BitOr for PollEvents {
    type Output = PollEvents;

    fn bitor(self, rhs: PollEvents) -> (r: PollEvents)
        ensures
            r.bits == self.bits | rhs.bits,
    {
        PollEvents { bits: self.bits | rhs.bits }
    }
}

impl vstd::std_specs::ops::BitOrSpecImpl for PollEvents {
    open spec fn obeys_bitor_spec() -> bool {
        true
    }

    open spec fn bitor_req(self, rhs: PollEvents) -> bool {
        true
    }

    open spec fn bitor_spec(self, rhs: PollEvents) -> PollEvents {
        PollEvents { bits: self.bits | rhs.bits }
    }
}

impl core::ops::BitOrAssign for PollEvents {
    fn bitor_assign(&mut self, rhs: PollEvents)
        ensures
            final(self).bits == old(self).bits | rhs.bits,
    {
        self.bits = self.bits | rhs.bits;
    }
}


/// What the caller asks of an entry that was ready: to wait for other
/// events from now on, or to be removed.
pub enum Reaction {
    Events(PollEvents),
    Remove,
}

/// The handle of an entry, valid until the entry is removed.
#[derive(Copy, Clone, Debug)]
pub struct PollRef(pub usize);

/// A `struct pollfd` of `poll(2)`, as plain values.
#[derive(Copy, Clone, Debug)]
pub struct PollFd {
    pub fd: i32,
    pub events: i16,
    pub revents: i16,
}

/// An entry that is ready, lent for reading.
pub struct PollEntry<'a, UserItem> {
    pub poll_ref: PollRef,
    pub fd: i32,
    pub events: PollEvents,
    pub user_item: &'a UserItem,
}

/// An entry that is ready, lent for changing its item.
pub struct PollEntryMut<'a, UserItem> {
    pub poll_ref: PollRef,
    pub fd: i32,
    pub events: PollEvents,
    pub user_item: &'a mut UserItem,
}

/// An entry, abstractly: its key, its file descriptor, the events waited
/// for, the events that the last poll found, and the caller's item.
pub struct PollSlot<UserItem> {
    pub key: usize,
    pub fd: i32,
    pub events: i16,
    pub revents: i16,
    pub item: UserItem,
}

/// `slot` is an entry of `orig`, by key, file descriptor and found events.
pub open spec fn kept_from<UserItem>(orig: Seq<PollSlot<UserItem>>, slot: PollSlot<UserItem>) -> bool {
    exists|j: int|
        #![trigger orig[j]]
        0 <= j < orig.len() && orig[j].key == slot.key && orig[j].fd == slot.fd && orig[j].revents == slot.revents
}

/// `s` without its element `i`, whose place the last element takes.
pub open spec fn swap_removed<A>(s: Seq<A>, i: int) -> Seq<A> {
    s.update(i, s.last()).drop_last()
}

/// Removing an entry keeps every other entry, which only moves: handles of
/// other entries stay valid.
pub proof fn lemma_swap_removed_keeps_others<A>(s: Seq<A>, i: int, j: int)
    requires
        0 <= i < s.len(),
        0 <= j < s.len(),
        i != j,
    ensures
        swap_removed(s, i).contains(s[j]),
        swap_removed(s, i).len() == s.len() - 1,
{
    let r = swap_removed(s, i);
    if j == s.len() - 1 {
        assert(r[i] == s[j]);
    } else {
        assert(r[j] == s[j]);
    }
}

/// The entries that result when, from entry `index` on, each entry that the
/// last poll found ready is handed over in turn and the answers `rs` are
/// applied: an answer is the item as the handler left it and the handler's
/// reaction, applied as `Poller::apply_reaction` applies it. `None` when `rs`
/// are not answers that `valid` admits, one for each entry handed over.
pub open spec fn react_steps<UserItem>(
    valid: spec_fn(PollSlot<UserItem>, UserItem, Option<Reaction>) -> bool,
    s: Seq<PollSlot<UserItem>>,
    index: int,
    rs: Seq<(UserItem, Option<Reaction>)>,
) -> Option<Seq<PollSlot<UserItem>>>
    decreases s.len() - index,
{
    if index < 0 || index >= s.len() {
        if rs.len() == 0 {
            Some(s)
        } else {
            None
        }
    } else if s[index].revents == 0 {
        react_steps(valid, s, index + 1, rs)
    } else if rs.len() == 0 || !valid(s[index], rs[0].0, rs[0].1) {
        None
    } else {
        let handled = s.update(index, PollSlot { item: rs[0].0, ..s[index] });
        match rs[0].1 {
            None => react_steps(valid, handled, index + 1, rs.drop_first()),
            Some(Reaction::Events(ev)) => react_steps(
                valid,
                handled.update(index, PollSlot { events: ev.bits, ..handled[index] }),
                index + 1,
                rs.drop_first(),
            ),
            Some(Reaction::Remove) => react_steps(valid, swap_removed(handled, index), index, rs.drop_first()),
        }
    }
}

/// The number of answers in `rs` that ask for removal.
pub open spec fn count_removes<UserItem>(rs: Seq<(UserItem, Option<Reaction>)>) -> nat
    decreases rs.len(),
{
    if rs.len() == 0 {
        0
    } else {
        (if rs[0].1 matches Some(Reaction::Remove) { 1nat } else { 0nat }) + count_removes(rs.drop_first())
    }
}

/// Every answer that asks for removal removes an entry, and no other entry
/// goes: the entries that remain after the ready entries were handed over
/// are as many as before, less the answers `Remove`, and each of them was
/// there before, with its key and file descriptor.
pub proof fn lemma_react_removes_answered_entries<UserItem>(
    valid: spec_fn(PollSlot<UserItem>, UserItem, Option<Reaction>) -> bool,
    s: Seq<PollSlot<UserItem>>,
    index: int,
    rs: Seq<(UserItem, Option<Reaction>)>,
    t: Seq<PollSlot<UserItem>>,
)
    requires
        react_steps(valid, s, index, rs) == Some(t),
    ensures
        t.len() + count_removes(rs) == s.len(),
        forall|i: int| 0 <= i < t.len() ==> kept_from(s, #[trigger] t[i]),
    decreases s.len() - index,
{
    if index < 0 || index >= s.len() {
        assert forall|i: int| 0 <= i < t.len() implies kept_from(s, #[trigger] t[i]) by {
            assert(s[i] == t[i]);
        }
    } else if s[index].revents == 0 {
        lemma_react_removes_answered_entries(valid, s, index + 1, rs, t);
    } else {
        let handled = s.update(index, PollSlot { item: rs[0].0, ..s[index] });
        match rs[0].1 {
            None => {
                lemma_react_removes_answered_entries(valid, handled, index + 1, rs.drop_first(), t);
                assert forall|i: int| 0 <= i < t.len() implies kept_from(s, #[trigger] t[i]) by {
                    assert(kept_from(handled, t[i]));
                    let j = choose|j: int| 0 <= j < handled.len() && handled[j].key == t[i].key && handled[j].fd == t[i].fd && handled[j].revents == t[i].revents;
                    assert(s[j].key == handled[j].key);
                }
            },
            Some(Reaction::Events(ev)) => {
                let next = handled.update(index, PollSlot { events: ev.bits, ..handled[index] });
                lemma_react_removes_answered_entries(valid, next, index + 1, rs.drop_first(), t);
                assert forall|i: int| 0 <= i < t.len() implies kept_from(s, #[trigger] t[i]) by {
                    assert(kept_from(next, t[i]));
                    let j = choose|j: int| 0 <= j < next.len() && next[j].key == t[i].key && next[j].fd == t[i].fd && next[j].revents == t[i].revents;
                    assert(s[j].key == next[j].key);
                }
            },
            Some(Reaction::Remove) => {
                let next = swap_removed(handled, index);
                lemma_react_removes_answered_entries(valid, next, index, rs.drop_first(), t);
                assert forall|i: int| 0 <= i < t.len() implies kept_from(s, #[trigger] t[i]) by {
                    assert(kept_from(next, t[i]));
                    let j = choose|j: int| 0 <= j < next.len() && next[j].key == t[i].key && next[j].fd == t[i].fd && next[j].revents == t[i].revents;
                    let j0: int = if j == index { s.len() - 1 } else { j };
                    assert(s[j0].key == next[j].key);
                }
            },
        }
    }
}

/// `slot` has the key, file descriptor and item of an entry of `orig`.
pub open spec fn item_kept_from<UserItem>(orig: Seq<PollSlot<UserItem>>, slot: PollSlot<UserItem>) -> bool {
    exists|j: int|
        #![trigger orig[j]]
        0 <= j < orig.len() && orig[j].key == slot.key && orig[j].fd == slot.fd && orig[j].item == slot.item
}

/// A handler that leaves every item as it found it keeps the items: each
/// entry that remains after the ready entries were handed over has the key,
/// file descriptor and item of an entry that was there before.
pub proof fn lemma_react_keeps_items<UserItem>(
    valid: spec_fn(PollSlot<UserItem>, UserItem, Option<Reaction>) -> bool,
    s: Seq<PollSlot<UserItem>>,
    index: int,
    rs: Seq<(UserItem, Option<Reaction>)>,
    t: Seq<PollSlot<UserItem>>,
)
    requires
        react_steps(valid, s, index, rs) == Some(t),
        forall|slot: PollSlot<UserItem>, item: UserItem, r: Option<Reaction>|
            #[trigger] valid(slot, item, r) ==> item == slot.item,
    ensures
        forall|i: int| 0 <= i < t.len() ==> item_kept_from(s, #[trigger] t[i]),
    decreases s.len() - index,
{
    if index < 0 || index >= s.len() {
        assert forall|i: int| 0 <= i < t.len() implies item_kept_from(s, #[trigger] t[i]) by {
            assert(s[i] == t[i]);
        }
    } else if s[index].revents == 0 {
        lemma_react_keeps_items(valid, s, index + 1, rs, t);
    } else {
        let handled = s.update(index, PollSlot { item: rs[0].0, ..s[index] });
        assert(valid(s[index], rs[0].0, rs[0].1));
        assert(handled =~= s);
        match rs[0].1 {
            None => {
                lemma_react_keeps_items(valid, handled, index + 1, rs.drop_first(), t);
            },
            Some(Reaction::Events(ev)) => {
                let next = handled.update(index, PollSlot { events: ev.bits, ..handled[index] });
                lemma_react_keeps_items(valid, next, index + 1, rs.drop_first(), t);
                assert forall|i: int| 0 <= i < t.len() implies item_kept_from(s, #[trigger] t[i]) by {
                    assert(item_kept_from(next, t[i]));
                    let j = choose|j: int| 0 <= j < next.len() && next[j].key == t[i].key && next[j].fd == t[i].fd && next[j].item == t[i].item;
                    assert(s[j].key == next[j].key);
                }
            },
            Some(Reaction::Remove) => {
                let next = swap_removed(handled, index);
                lemma_react_keeps_items(valid, next, index, rs.drop_first(), t);
                assert forall|i: int| 0 <= i < t.len() implies item_kept_from(s, #[trigger] t[i]) by {
                    assert(item_kept_from(next, t[i]));
                    let j = choose|j: int| 0 <= j < next.len() && next[j].key == t[i].key && next[j].fd == t[i].fd && next[j].item == t[i].item;
                    let j0: int = if j == index { s.len() - 1 } else { j };
                    assert(s[j0] == next[j]);
                }
            },
        }
    }
}

/// Every entry of `s` has the file descriptor and the item that `handles`
/// holds under its key: what `add` was given for that handle.
pub open spec fn respects_handles<UserItem>(s: Seq<PollSlot<UserItem>>, handles: Map<usize, (i32, UserItem)>) -> bool {
    forall|i: int| 0 <= i < s.len() ==> handles.contains_key(#[trigger] s[i].key)
        && handles[s[i].key] == (s[i].fd, s[i].item)
}

/// The handle law, for `add`: the new entry, under a key that no entry has,
/// holds the file descriptor and item given to it, and the other entries
/// keep theirs.
pub proof fn lemma_handles_after_add<UserItem>(
    s: Seq<PollSlot<UserItem>>,
    handles: Map<usize, (i32, UserItem)>,
    slot: PollSlot<UserItem>,
)
    requires
        respects_handles(s, handles),
        forall|i: int| 0 <= i < s.len() ==> s[i].key != slot.key,
    ensures
        respects_handles(s.push(slot), handles.insert(slot.key, (slot.fd, slot.item))),
{
    let t = s.push(slot);
    assert forall|i: int| 0 <= i < t.len() implies handles.insert(slot.key, (slot.fd, slot.item)).contains_key(#[trigger] t[i].key)
        && handles.insert(slot.key, (slot.fd, slot.item))[t[i].key] == (t[i].fd, t[i].item) by {
        if i < s.len() {
            assert(t[i] == s[i]);
        }
    }
}

/// The handle law, for `remove` and for an entry removed by a reaction: the
/// entries that stay keep their file descriptors and items.
pub proof fn lemma_handles_after_removal<UserItem>(
    s: Seq<PollSlot<UserItem>>,
    handles: Map<usize, (i32, UserItem)>,
    i: int,
)
    requires
        respects_handles(s, handles),
        0 <= i < s.len(),
    ensures
        respects_handles(swap_removed(s, i), handles),
{
    let t = swap_removed(s, i);
    assert forall|j: int| 0 <= j < t.len() implies handles.contains_key(#[trigger] t[j].key)
        && handles[t[j].key] == (t[j].fd, t[j].item) by {
        if j == i {
            assert(t[j] == s[s.len() - 1]);
        } else {
            assert(t[j] == s[j]);
        }
    }
}

/// The handle law, for recording what a poll found: only the found events
/// change, so every entry keeps its file descriptor and item.
pub proof fn lemma_handles_after_poll<UserItem>(
    s: Seq<PollSlot<UserItem>>,
    t: Seq<PollSlot<UserItem>>,
    handles: Map<usize, (i32, UserItem)>,
)
    requires
        respects_handles(s, handles),
        t.len() == s.len(),
        forall|i: int| 0 <= i < t.len() ==> #[trigger] t[i].key == s[i].key && t[i].fd == s[i].fd && t[i].item == s[i].item,
    ensures
        respects_handles(t, handles),
{
    assert forall|i: int| 0 <= i < t.len() implies handles.contains_key(#[trigger] t[i].key)
        && handles[t[i].key] == (t[i].fd, t[i].item) by {
        assert(t[i].key == s[i].key);
    }
}

/// The handle law, for `react`: while the handler leaves every item as it
/// found it, every entry that remains still has the file descriptor and item
/// that its handle was given, whatever events the handler asks for.
pub proof fn lemma_handles_after_react<UserItem>(
    valid: spec_fn(PollSlot<UserItem>, UserItem, Option<Reaction>) -> bool,
    s: Seq<PollSlot<UserItem>>,
    rs: Seq<(UserItem, Option<Reaction>)>,
    t: Seq<PollSlot<UserItem>>,
    handles: Map<usize, (i32, UserItem)>,
)
    requires
        respects_handles(s, handles),
        react_steps(valid, s, 0, rs) == Some(t),
        forall|slot: PollSlot<UserItem>, item: UserItem, r: Option<Reaction>|
            #[trigger] valid(slot, item, r) ==> item == slot.item,
    ensures
        respects_handles(t, handles),
{
    lemma_react_keeps_items(valid, s, 0, rs, t);
    assert forall|i: int| 0 <= i < t.len() implies handles.contains_key(#[trigger] t[i].key)
        && handles[t[i].key] == (t[i].fd, t[i].item) by {
        assert(item_kept_from(s, t[i]));
        let j = choose|j: int| 0 <= j < s.len() && s[j].key == t[i].key && s[j].fd == t[i].fd && s[j].item == t[i].item;
        assert(handles.contains_key(s[j].key));
    }
}

struct PollerEntry<UserItem> {
    key: usize,
    user_item: UserItem,
}

// ----- the slab that maps keys to indices -----

/// The indices that a slab stores, by key.
pub uninterp spec fn index_slab_entries(slab: Slab<usize>) -> Map<usize, usize>;

/// `Slab::new`: an empty slab.
#[verifier::external_body]
fn index_slab_new() -> (fresh: Slab<usize>)
    ensures
        index_slab_entries(fresh).dom() == Set::<usize>::empty(),
{
    Slab::new()
}

/// `Slab::insert`: stores `index` under a key that was vacant and returns the key.
#[verifier::external_body]
fn index_slab_insert(slab: &mut Slab<usize>, index: usize) -> (key: usize)
    ensures
        !index_slab_entries(*old(slab)).contains_key(key),
        index_slab_entries(*final(slab)) == index_slab_entries(*old(slab)).insert(key, index),
{
    slab.insert(index)
}

/// `Slab::try_remove`: takes the index stored under `key` out, if there is one.
#[verifier::external_body]
fn index_slab_try_remove(slab: &mut Slab<usize>, key: usize) -> (r: Option<usize>)
    ensures
        r is Some == index_slab_entries(*old(slab)).contains_key(key),
        r matches Some(i) ==> i == index_slab_entries(*old(slab))[key],
        index_slab_entries(*final(slab)) == index_slab_entries(*old(slab)).remove(key),
{
    slab.try_remove(key)
}

/// `Slab::remove`: takes the index stored under `key` out. The slab panics
/// on a vacant key, which `requires` leaves out.
#[verifier::external_body]
fn index_slab_remove(slab: &mut Slab<usize>, key: usize) -> (index: usize)
    requires
        index_slab_entries(*old(slab)).contains_key(key),
    ensures
        index == index_slab_entries(*old(slab))[key],
        index_slab_entries(*final(slab)) == index_slab_entries(*old(slab)).remove(key),
{
    slab.remove(key)
}

/// `Slab::index_mut`, assigned to: replaces the index stored under `key`.
/// The slab panics on a vacant key, which `requires` leaves out.
#[verifier::external_body]
fn index_slab_replace(slab: &mut Slab<usize>, key: usize, index: usize)
    requires
        index_slab_entries(*old(slab)).contains_key(key),
    ensures
        index_slab_entries(*final(slab)) == index_slab_entries(*old(slab)).insert(key, index),
{
    slab[key] = index;
}

/// The timeout of `poll(2)` in milliseconds: -1 to wait without end, else the
/// milliseconds converted as `as i32` converts them.
pub open spec fn poll_timeout(timeout: Option<u64>) -> i32 {
    match timeout {
        Some(ms) => ms as i32,
        None => -1i32,
    }
}

/// The file descriptors to poll, each with the caller's item.
pub struct Poller<UserItem> {
    pollfds: Vec<PollFd>,
    entries: Vec<PollerEntry<UserItem>>,
    key_to_index: Slab<usize>,
}

impl<UserItem> View for Poller<UserItem> {
    type V = Seq<PollSlot<UserItem>>;

    closed spec fn view(&self) -> Seq<PollSlot<UserItem>> {
        Seq::new(
            self.pollfds@.len(),
            |i: int|
                PollSlot {
                    key: self.entries@[i].key,
                    fd: self.pollfds@[i].fd,
                    events: self.pollfds@[i].events,
                    revents: self.pollfds@[i].revents,
                    item: self.entries@[i].user_item,
                },
        )
    }
}

impl<UserItem> Poller<UserItem> {
    /// The entries agree with the map from keys to their indices.
    pub closed spec fn wf(&self) -> bool {
        self.agrees_with(index_slab_entries(self.key_to_index))
    }

    /// The entries agree with `slab`, a map from keys to their indices.
    closed spec fn agrees_with(&self, slab: Map<usize, usize>) -> bool {
        &&& self.pollfds@.len() == self.entries@.len()
        &&& forall|i: int| 0 <= i < self.entries@.len() ==> slab.contains_key(#[trigger] self.entries@[i].key)
            && slab[self.entries@[i].key] == i
        &&& forall|k: usize| #[trigger] slab.contains_key(k) ==> slab[k] < self.entries@.len()
            && self.entries@[slab[k] as int].key == k
    }

    /// Keys of distinct entries differ.
    pub proof fn lemma_keys_distinct(&self)
        requires
            self.wf(),
        ensures
            forall|i: int, j: int| 0 <= i < self@.len() && 0 <= j < self@.len() && i != j
                ==> #[trigger] self@[i].key != #[trigger] self@[j].key,
    {
        let slab = index_slab_entries(self.key_to_index);
        assert forall|i: int, j: int| 0 <= i < self@.len() && 0 <= j < self@.len() && i != j
            implies #[trigger] self@[i].key != #[trigger] self@[j].key by {
            assert(slab[self.entries@[i].key] == i);
            assert(slab[self.entries@[j].key] == j);
        }
    }

    /// A poller without entries.
    pub fn new() -> (p: Poller<UserItem>)
        ensures
            p.wf(),
            p@.len() == 0,
    {
        let p = Poller { pollfds: Vec::new(), entries: Vec::new(), key_to_index: index_slab_new() };
        assert forall|k: usize| #[trigger] index_slab_entries(p.key_to_index).contains_key(k) implies false by {
            assert(index_slab_entries(p.key_to_index).dom().contains(k));
        }
        p
    }

    /// The number of entries.
    pub fn num_items(&self) -> (n: usize)
        requires
            self.wf(),
        ensures
            n == self@.len(),
    {
        self.pollfds.len()
    }

    /// Adds an entry that waits on `fd` for the events `mode`.
    pub fn add(&mut self, fd: i32, mode: PollEvents, user_item: UserItem) -> (r: PollRef)
        requires
            old(self).wf(),
        ensures
            final(self).wf(),
            forall|i: int| 0 <= i < old(self)@.len() ==> old(self)@[i].key != r.0,
            final(self)@ == old(self)@.push(PollSlot { key: r.0, fd, events: mode.bits, revents: 0, item: user_item }),
    {
        let ghost old_slab = index_slab_entries(self.key_to_index);
        let key = index_slab_insert(&mut self.key_to_index, self.pollfds.len());
        self.pollfds.push(PollFd { fd, events: mode.bits, revents: 0 });
        self.entries.push(PollerEntry { key, user_item });
        let ghost slab = index_slab_entries(self.key_to_index);
        assert forall|i: int| 0 <= i < self.entries@.len() implies slab.contains_key(#[trigger] self.entries@[i].key)
            && slab[self.entries@[i].key] == i by {
            if i < old(self).entries@.len() {
                assert(old(self).entries@[i] == self.entries@[i]);
                assert(old_slab.contains_key(old(self).entries@[i].key));
            }
        }
        assert forall|k: usize| #[trigger] slab.contains_key(k) implies slab[k] < self.entries@.len()
            && self.entries@[slab[k] as int].key == k by {
            if k != key {
                assert(old_slab.contains_key(k));
            }
        }
        assert forall|i: int| 0 <= i < old(self)@.len() implies old(self)@[i].key != key by {
            assert(old_slab.contains_key(old(self).entries@[i].key));
        }
        assert(self@ =~= old(self)@.push(PollSlot { key, fd, events: mode.bits, revents: 0, item: user_item }));
        PollRef(key)
    }

    /// Takes entry `index` out, whose key the slab no longer holds; the last
    /// entry takes its place.
    fn swap_out(&mut self, index: usize, Ghost(full): Ghost<Map<usize, usize>>) -> (r: (i32, UserItem))
        requires
            old(self).agrees_with(full),
            index < old(self)@.len(),
            index_slab_entries(old(self).key_to_index) == full.remove(old(self).entries@[index as int].key),
        ensures
            final(self).wf(),
            r.0 == old(self)@[index as int].fd,
            r.1 == old(self)@[index as int].item,
            final(self)@ == swap_removed(old(self)@, index as int),
    {
        let ghost old_entries = self.entries@;
        let ghost n = old_entries.len();
        let ghost gone = old_entries[index as int].key;
        let pollfd = self.pollfds.swap_remove(index);
        let entry = self.entries.swap_remove(index);
        if index < self.entries.len() {
            let moved = self.entries[index].key;
            assert(full.contains_key(old_entries[n - 1].key));
            assert(old_entries[n - 1].key != gone);
            index_slab_replace(&mut self.key_to_index, moved, index);
        }
        let ghost slab = index_slab_entries(self.key_to_index);
        assert forall|i: int| 0 <= i < self.entries@.len() implies slab.contains_key(#[trigger] self.entries@[i].key)
            && slab[self.entries@[i].key] == i by {
            if i == index {
                assert(self.entries@[i] == old_entries[n - 1]);
            } else {
                assert(self.entries@[i] == old_entries[i]);
                assert(full.contains_key(old_entries[i].key));
                assert(full[old_entries[i].key] == i);
                assert(old_entries[i].key != gone);
                if index < self.entries@.len() {
                    assert(full[old_entries[n - 1].key] == n - 1);
                    assert(old_entries[i].key != old_entries[n - 1].key);
                }
            }
        }
        assert forall|k: usize| #[trigger] slab.contains_key(k) implies slab[k] < self.entries@.len()
            && self.entries@[slab[k] as int].key == k by {
            assert(full.contains_key(k));
            assert(k != gone);
            let j = full[k] as int;
            if j == n - 1 {
                assert(index < self.entries@.len());
            }
        }
        assert(self@ =~= swap_removed(old(self)@, index as int));
        (pollfd.fd, entry.user_item)
    }

    /// Removes the entry of `poll_ref` and hands back its file descriptor
    /// and item; the last entry takes its place. Without such an entry,
    /// nothing changes and `None` is returned.
    pub fn remove(&mut self, poll_ref: PollRef) -> (r: Option<(i32, UserItem)>)
        requires
            old(self).wf(),
        ensures
            final(self).wf(),
            match r {
                Some(removed) => exists|i: int| 0 <= i < old(self)@.len() && old(self)@[i].key == poll_ref.0
                    && removed.0 == old(self)@[i].fd && removed.1 == old(self)@[i].item
                    && final(self)@ == swap_removed(old(self)@, i),
                None => final(self)@ == old(self)@ && forall|i: int| 0 <= i < old(self)@.len()
                    ==> old(self)@[i].key != poll_ref.0,
            },
    {
        let ghost full = index_slab_entries(self.key_to_index);
        match index_slab_try_remove(&mut self.key_to_index, poll_ref.0) {
            Some(index) => {
                assert(self.entries@[index as int].key == poll_ref.0);
                let removed = self.swap_out(index, Ghost(full));
                assert(old(self)@[index as int].key == poll_ref.0);
                Some(removed)
            },
            None => {
                assert forall|i: int| 0 <= i < old(self)@.len() implies old(self)@[i].key != poll_ref.0 by {
                    assert(full.contains_key(old(self).entries@[i].key));
                }
                assert(index_slab_entries(self.key_to_index) =~= full);
                None
            },
        }
    }

    /// The timeout to hand to `poll(2)`. With no entry there is nothing to
    /// poll: the error is that of the call `poll(NULL, 0, -1)`, an invalid
    /// argument.
    pub fn poll_timeout_for(&self, timeout: Option<u64>) -> (r: Result<i32, crate::sys::Error>)
        requires
            self.wf(),
        ensures
            self@.len() == 0 ==> (r matches Err(e) && e.syscall_name@ == "poll(NULL, 0, -1)"@
                && crate::sys::raw_os_error_of(e.io_err) == Some(crate::sys::EINVAL)),
            self@.len() > 0 ==> (r matches Ok(t) && t == poll_timeout(timeout)),
    {
        if self.pollfds.len() == 0 {
            return Err(crate::sys::Error {
                syscall_name: "poll(NULL, 0, -1)",
                io_err: crate::sys::os_error(crate::sys::EINVAL),
            });
        }
        match timeout {
            Some(ms) => Ok(ms as i32),
            None => Ok(-1),
        }
    }

    /// The `struct pollfd`s to hand to `poll(2)`, in the order of the entries.
    pub fn pollfds(&self) -> (r: &[PollFd])
        requires
            self.wf(),
        ensures
            r@.len() == self@.len(),
            forall|i: int| 0 <= i < r@.len() ==> (#[trigger] r@[i]).fd == self@[i].fd
                && r@[i].events == self@[i].events && r@[i].revents == self@[i].revents,
    {
        self.pollfds.as_slice()
    }

    /// Records the events that `poll(2)` found, entry by entry.
    pub fn record_revents(&mut self, revents: &[i16])
        requires
            old(self).wf(),
            revents@.len() == old(self)@.len(),
        ensures
            final(self).wf(),
            final(self)@.len() == old(self)@.len(),
            forall|i: int| 0 <= i < final(self)@.len() ==> #[trigger] final(self)@[i] == (PollSlot {
                revents: revents@[i],
                ..old(self)@[i]
            }),
    {
        let mut i: usize = 0;
        while i < self.pollfds.len()
            invariant
                self.wf(),
                self.entries == old(self).entries,
                self.key_to_index == old(self).key_to_index,
                self.pollfds@.len() == old(self).pollfds@.len(),
                revents@.len() == self.pollfds@.len(),
                i <= self.pollfds@.len(),
                forall|j: int| 0 <= j < self.pollfds@.len() ==> (#[trigger] self.pollfds@[j]).fd == old(self).pollfds@[j].fd
                    && self.pollfds@[j].events == old(self).pollfds@[j].events,
                forall|j: int| 0 <= j < i ==> (#[trigger] self.pollfds@[j]).revents == revents@[j],
                forall|j: int| i <= j < self.pollfds@.len() ==> (#[trigger] self.pollfds@[j]).revents == old(self).pollfds@[j].revents,
            decreases self.pollfds@.len() - i,
        {
            let old_fd = self.pollfds[i];
            self.pollfds.set(i, PollFd { fd: old_fd.fd, events: old_fd.events, revents: revents[i] });
            i = i + 1;
        }
        assert forall|j: int| 0 <= j < self@.len() implies #[trigger] self@[j] == PollSlot {
            revents: revents@[j],
            ..old(self)@[j]
        } by {}
    }

    /// The entries that the last poll found ready, in order, each with the
    /// events that it found.
    pub fn ready(&self) -> (r: Vec<PollEntry<'_, UserItem>>)
        requires
            self.wf(),
        ensures
            exists|indices: Seq<int>| {
                &&& forall|a: int, b: int| 0 <= a < b < indices.len() ==> indices[a] < indices[b]
                &&& forall|i: int| 0 <= i < self@.len() ==> (self@[i].revents != 0 <==> indices.contains(i))
                &&& forall|a: int| 0 <= a < indices.len() ==> 0 <= #[trigger] indices[a] < self@.len()
                &&& r@.len() == indices.len()
                &&& forall|a: int| 0 <= a < indices.len() ==> {
                    let slot = self@[indices[a]];
                    &&& (#[trigger] r@[a]).poll_ref.0 == slot.key
                    &&& r@[a].fd == slot.fd
                    &&& r@[a].events.bits == slot.revents
                    &&& *r@[a].user_item == slot.item
                }
            },
    {
        let mut out: Vec<PollEntry<'_, UserItem>> = Vec::new();
        let ghost mut indices: Seq<int> = Seq::empty();
        let mut i: usize = 0;
        while i < self.pollfds.len()
            invariant
                self.wf(),
                i <= self@.len(),
                forall|a: int, b: int| 0 <= a < b < indices.len() ==> indices[a] < indices[b],
                forall|a: int| 0 <= a < indices.len() ==> 0 <= #[trigger] indices[a] < i,
                forall|j: int| 0 <= j < i ==> (self@[j].revents != 0 <==> indices.contains(j)),
                out@.len() == indices.len(),
                forall|a: int| 0 <= a < indices.len() ==> {
                    let slot = self@[indices[a]];
                    &&& (#[trigger] out@[a]).poll_ref.0 == slot.key
                    &&& out@[a].fd == slot.fd
                    &&& out@[a].events.bits == slot.revents
                    &&& *out@[a].user_item == slot.item
                },
            decreases self@.len() - i,
        {
            let pollfd = self.pollfds[i];
            let ghost prev = indices;
            if pollfd.revents != 0 {
                let entry = &self.entries[i];
                out.push(PollEntry {
                    poll_ref: PollRef(entry.key),
                    fd: pollfd.fd,
                    events: PollEvents { bits: pollfd.revents },
                    user_item: &entry.user_item,
                });
                proof {
                    indices = indices.push(i as int);
                    assert(indices[indices.len() - 1] == i);
                }
            }
            proof {
                assert(self@[i as int].revents == pollfd.revents);
                assert forall|j: int| 0 <= j < i + 1 implies (self@[j].revents != 0 <==> indices.contains(j)) by {
                    if j < i {
                        if prev.contains(j) {
                            let a = choose|a: int| 0 <= a < prev.len() && prev[a] == j;
                            assert(indices[a] == j);
                        }
                        if indices.contains(j) {
                            let a = choose|a: int| 0 <= a < indices.len() && indices[a] == j;
                            assert(a < prev.len());
                            assert(prev[a] == j);
                        }
                    } else {
                        if pollfd.revents != 0 {
                            assert(indices[indices.len() - 1] == j);
                        } else {
                            if indices.contains(j) {
                                let a = choose|a: int| 0 <= a < indices.len() && indices[a] == j;
                                assert(prev[a] < i);
                            }
                        }
                    }
                }
            }
            i = i + 1;
        }
        out
    }

    /// Applies what the caller asked of entry `index`, and returns the index
    /// of the next entry to look at: new events are recorded and the next
    /// entry follows; a removed entry's place is taken by the last entry,
    /// which is looked at next; without a reaction the entry is kept.
    pub fn apply_reaction(&mut self, index: usize, reaction: Option<Reaction>) -> (next: usize)
        requires
            old(self).wf(),
            index < old(self)@.len(),
        ensures
            final(self).wf(),
            match reaction {
                None => next == index + 1 && final(self)@ == old(self)@,
                Some(Reaction::Events(events)) => next == index + 1 && final(self)@ == old(self)@.update(
                    index as int,
                    PollSlot { events: events.bits, ..old(self)@[index as int] },
                ),
                Some(Reaction::Remove) => next == index && final(self)@ == swap_removed(old(self)@, index as int),
            },
    {
        let n = self.pollfds.len();
        assert(index < n);
        match reaction {
            None => index + 1,
            Some(Reaction::Events(events)) => {
                let old_fd = self.pollfds[index];
                self.pollfds.set(index, PollFd { fd: old_fd.fd, events: events.bits, revents: old_fd.revents });
                assert(self@ =~= old(self)@.update(
                    index as int,
                    PollSlot { events: events.bits, ..old(self)@[index as int] },
                ));
                index + 1
            },
            Some(Reaction::Remove) => {
                let ghost full = index_slab_entries(self.key_to_index);
                let key = self.entries[index].key;
                index_slab_remove(&mut self.key_to_index, key);
                let _ = self.swap_out(index, Ghost(full));
                index
            },
        }
    }

    /// Hands entry `index` to `reactor`, with its handle, its file
    /// descriptor, the events that it waits for and its item, which `reactor`
    /// may change; `reactor` itself is handed back unchanged.
    fn hand_over<R>(&mut self, index: usize, mut reactor: R) -> (out: (R, Option<Reaction>))
        where R: FnMut(PollEntryMut<UserItem>) -> Option<Reaction>,
        requires
            old(self).wf(),
            index < old(self)@.len(),
            forall|e: PollEntryMut<UserItem>| call_requires(reactor, (e,)),
        ensures
            final(self).wf(),
            out.0 == reactor,
            final(self)@ == old(self)@.update(index as int, PollSlot { item: final(self)@[index as int].item, ..old(self)@[index as int] }),
            exists|e: PollEntryMut<UserItem>|
                e.poll_ref.0 == old(self)@[index as int].key && e.fd == old(self)@[index as int].fd
                    && e.events.bits == old(self)@[index as int].events && *e.user_item == old(self)@[index as int].item
                    && *final(e.user_item) == final(self)@[index as int].item
                    && #[trigger] call_ensures(reactor, (e,), out.1),
    {
        let ghost original = reactor;
        let pollfd = self.pollfds[index];
        let entry = &mut self.entries[index];
        let arg = PollEntryMut {
            poll_ref: PollRef(entry.key),
            fd: pollfd.fd,
            events: PollEvents { bits: pollfd.events },
            user_item: &mut entry.user_item,
        };
        let r = reactor(arg);
        proof {
            assert(call_ensures(original, (arg,), r));
            assert(*final(arg.user_item) == final(self)@[index as int].item);
        }
        assert(self@ =~= old(self)@.update(index as int, PollSlot { item: self@[index as int].item, ..old(self)@[index as int] }));
        let out = (reactor, r);
        assert(out.0 == original && out.1 == r);
        out
    }

    /// Hands each entry that the last poll found ready to `reactor`, in turn,
    /// with the events that it waits for and its own item, and applies what
    /// `reactor` asks of it (see `apply_reaction`): the entries that result
    /// are those of `react_steps` for the answers that `reactor` gave and the
    /// items as it left them. Entries that were not ready are kept as they
    /// were; every entry that remains was there before, with its key, file
    /// descriptor and found events.
    pub fn react<R>(&mut self, mut reactor: R)
        where R: FnMut(PollEntryMut<UserItem>) -> Option<Reaction>,
        requires
            old(self).wf(),
            forall|e: PollEntryMut<UserItem>| call_requires(reactor, (e,)),
        ensures
            final(self).wf(),
            exists|rs: Seq<(UserItem, Option<Reaction>)>|
                #![trigger rs.len()]
                react_steps(
                    |slot: PollSlot<UserItem>, item: UserItem, r: Option<Reaction>|
                        exists|e: PollEntryMut<UserItem>|
                            e.poll_ref.0 == slot.key && e.fd == slot.fd && e.events.bits == slot.events
                                && *e.user_item == slot.item && *final(e.user_item) == item
                                && #[trigger] call_ensures(reactor, (e,), r),
                    old(self)@,
                    0,
                    rs,
                ) == Some(final(self)@) && final(self)@.len() + count_removes(rs) == old(self)@.len(),
            forall|i: int| 0 <= i < final(self)@.len() ==> kept_from(old(self)@, #[trigger] final(self)@[i]),
            forall|j: int| 0 <= j < old(self)@.len() && (#[trigger] old(self)@[j]).revents == 0
                ==> final(self)@.contains(old(self)@[j]),
    {
        let ghost original = reactor;
        let ghost valid = |slot: PollSlot<UserItem>, item: UserItem, r: Option<Reaction>|
            exists|e: PollEntryMut<UserItem>|
                e.poll_ref.0 == slot.key && e.fd == slot.fd && e.events.bits == slot.events
                    && *e.user_item == slot.item && *final(e.user_item) == item
                    && #[trigger] call_ensures(original, (e,), r);
        let mut index: usize = 0;
        let ghost done: Seq<(UserItem, Option<Reaction>)> = Seq::empty();
        assert forall|i: int| 0 <= i < self@.len() implies kept_from(old(self)@, #[trigger] self@[i]) by {
            assert(old(self)@[i] == self@[i]);
        }
        assert forall|j: int| 0 <= j < old(self)@.len() && (#[trigger] old(self)@[j]).revents == 0
            implies self@.contains(old(self)@[j]) by {
            assert(self@[j] == old(self)@[j]);
        }
        assert forall|rest: Seq<(UserItem, Option<Reaction>)>|
            react_steps(valid, old(self)@, 0, done + rest)
                == #[trigger] react_steps(valid, self@, index as int, rest) by {
            assert(done + rest =~= rest);
        }
        while index < self.pollfds.len()
            invariant
                self.wf(),
                index <= self@.len(),
                reactor == original,
                valid == (|slot: PollSlot<UserItem>, item: UserItem, r: Option<Reaction>|
                    exists|e: PollEntryMut<UserItem>|
                        e.poll_ref.0 == slot.key && e.fd == slot.fd && e.events.bits == slot.events
                            && *e.user_item == slot.item && *final(e.user_item) == item
                            && #[trigger] call_ensures(original, (e,), r)),
                forall|e: PollEntryMut<UserItem>| call_requires(reactor, (e,)),
                forall|i: int| 0 <= i < self@.len() ==> kept_from(old(self)@, #[trigger] self@[i]),
                forall|j: int| 0 <= j < old(self)@.len() && (#[trigger] old(self)@[j]).revents == 0
                    ==> self@.contains(old(self)@[j]),
                forall|rest: Seq<(UserItem, Option<Reaction>)>|
                    react_steps(valid, old(self)@, 0, done + rest)
                        == #[trigger] react_steps(valid, self@, index as int, rest),
            decreases self@.len() - index,
        {
            let ghost before = self@;
            let ghost old_done = done;
            let ready = self.pollfds[index].revents != 0;
            let reaction = if ready {
                let (handed_back, r) = self.hand_over(index, reactor);
                reactor = handed_back;
                proof {
                    assert(valid(before[index as int], self@[index as int].item, r));
                    done = done.push((self@[index as int].item, r));
                }
                r
            } else {
                None
            };
            let ghost mid = self@;
            assert(mid.len() == before.len());
            assert(forall|i: int| 0 <= i < mid.len() && i != index ==> mid[i] == before[i]);
            assert(mid[index as int].key == before[index as int].key);
            assert(mid[index as int].fd == before[index as int].fd);
            assert(mid[index as int].events == before[index as int].events);
            assert(mid[index as int].revents == before[index as int].revents);
            assert(!ready ==> mid == before);
            let ghost old_index = index as int;
            let ghost g_reaction = reaction;
            index = self.apply_reaction(index, reaction);
            proof {
                assert forall|rest: Seq<(UserItem, Option<Reaction>)>|
                    react_steps(valid, old(self)@, 0, done + rest)
                        == #[trigger] react_steps(valid, self@, index as int, rest) by {
                    if ready {
                        let rs = seq![(mid[old_index].item, g_reaction)] + rest;
                        assert(done + rest =~= old_done + rs);
                        assert(rs.drop_first() =~= rest);
                        assert(rs[0] == (mid[old_index].item, g_reaction));
                        assert(before.update(old_index, PollSlot { item: mid[old_index].item, ..before[old_index] }) =~= mid);
                        assert(react_steps(valid, old(self)@, 0, old_done + rs)
                            == react_steps(valid, before, old_index, rs));
                    } else {
                        assert(react_steps(valid, old(self)@, 0, old_done + rest)
                            == react_steps(valid, before, old_index, rest));
                    }
                }
            }
            assert forall|i: int| 0 <= i < self@.len() implies kept_from(old(self)@, #[trigger] self@[i]) by {
                let cur_slot = self@[i];
                let src: int = if mid.len() == self@.len() { i } else if i == index { mid.len() - 1 } else { i };
                assert(cur_slot.key == mid[src].key && cur_slot.fd == mid[src].fd && cur_slot.revents == mid[src].revents);
                assert(cur_slot.key == before[src].key && cur_slot.fd == before[src].fd && cur_slot.revents == before[src].revents);
                assert(kept_from(old(self)@, before[src]));
            }
            assert forall|j: int| 0 <= j < old(self)@.len() && (#[trigger] old(self)@[j]).revents == 0
                implies self@.contains(old(self)@[j]) by {
                assert(before.contains(old(self)@[j]));
                let p = choose|p: int| 0 <= p < before.len() && before[p] == old(self)@[j];
                if p == index {
                    assert(mid[p] == before[p]);
                    assert(self@[p] == mid[p]);
                } else if p < self@.len() && (mid.len() == self@.len() || p != index) {
                    assert(mid[p] == before[p]);
                    assert(self@[p] == mid[p]);
                } else {
                    assert(mid[p] == before[p]);
                    assert(self@[index as int] == mid[p]);
                }
            }
        }
        proof {
            let empty = Seq::<(UserItem, Option<Reaction>)>::empty();
            assert(done + empty =~= done);
            assert(react_steps(valid, self@, index as int, empty) == Some(self@));
            assert(react_steps(valid, old(self)@, 0, done + empty)
                == react_steps(valid, self@, index as int, empty));
            assert(react_steps(valid, old(self)@, 0, done) == Some(self@));
            lemma_react_removes_answered_entries(valid, old(self)@, 0, done, self@);
        }
    }
}

} // verus!
