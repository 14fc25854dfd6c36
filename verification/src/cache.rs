//! The cache of open connections, and how a call comes by its connection.
use vstd::prelude::*;

use crate::conn::{same_key, ConnKey, ConnKeyV};

verus! {

/// The open connections by key: a list in which no key occurs twice. `H` is what stands for a
/// connection.
pub struct Cache<H> {
    entries: Vec<(ConnKey, H)>,
}

/// Whether entry `i` has the key.
spec fn has_key<H>(entries: Seq<(ConnKey, H)>, key: ConnKeyV, i: int) -> bool {
    0 <= i < entries.len() && entries[i].0@ == key
}

/// The entries by key.
spec fn by_key<H>(entries: Seq<(ConnKey, H)>) -> Map<ConnKeyV, H> {
    Map::new(
        |key: ConnKeyV| exists|i: int| #[trigger] has_key(entries, key, i),
        |key: ConnKeyV| entries[choose|i: int| #[trigger] has_key(entries, key, i)].1,
    )
}

/// No key occurs twice.
spec fn distinct<H>(entries: Seq<(ConnKey, H)>) -> bool {
    forall|i: int, j: int|
        0 <= i < j < entries.len() ==> (#[trigger] entries[i]).0@ != (#[trigger] entries[j]).0@
}

/// An entry is found under its key.
proof fn lemma_by_key<H>(entries: Seq<(ConnKey, H)>)
    requires
        distinct(entries),
    ensures
        forall|i: int|
            0 <= i < entries.len() ==> by_key(entries).contains_key((#[trigger] entries[i]).0@)
                && by_key(entries)[entries[i].0@] == entries[i].1,
{
    assert forall|i: int| 0 <= i < entries.len() implies by_key(entries).contains_key(
        (#[trigger] entries[i]).0@,
    ) && by_key(entries)[entries[i].0@] == entries[i].1 by {
        let key = entries[i].0@;
        assert(has_key(entries, key, i));
        let j = choose|j: int| #[trigger] has_key(entries, key, j);
        assert(i == j);
    }
}

/// What happens in a call. `H` is what stands for a connection.
pub enum Event<H> {
    /// The call asks for its connection.
    Asked,
    /// The connection was opened.
    Opened(H),
    /// The connection could not be opened.
    Refused,
    /// The work on the connection has ended.
    Ended { failed: bool },
}

/// What a call does next.
#[derive(Clone, Copy, Debug, PartialEq, Eq, Structural)]
pub enum Move {
    /// Open the connection.
    Connect,
    /// Work on the connection.
    Run,
    /// Report what came of it.
    Report,
}

/// What a call with the key does after an event: it opens a connection only where none is open.
pub open spec fn move_after<H>(open: Map<ConnKeyV, H>, key: ConnKeyV, event: Event<H>) -> Move {
    match event {
        Event::Asked => if open.contains_key(key) {
            Move::Run
        } else {
            Move::Connect
        },
        Event::Opened(_) => Move::Run,
        Event::Refused => Move::Report,
        Event::Ended { failed } => Move::Report,
    }
}

/// The open connections after an event in a call with the key: one that was opened is kept, and
/// one on which the work failed is dropped.
pub open spec fn open_after<H>(open: Map<ConnKeyV, H>, key: ConnKeyV, event: Event<H>) -> Map<
    ConnKeyV,
    H,
> {
    match event {
        Event::Opened(handle) => open.insert(key, handle),
        Event::Ended { failed } => if failed {
            open.remove(key)
        } else {
            open
        },
        _ => open,
    }
}

impl<H> View for Cache<H> {
    type V = Map<ConnKeyV, H>;

    closed spec fn view(&self) -> Map<ConnKeyV, H> {
        by_key(self.entries@)
    }
}

impl<H> Cache<H> {
    #[verifier::type_invariant]
    spec fn wf(self) -> bool {
        distinct(self.entries@)
    }

    /// A cache without connections.
    pub fn new() -> (r: Cache<H>)
        ensures
            r@ == Map::<ConnKeyV, H>::empty(),
    {
        let r = Cache { entries: Vec::new() };
        assert(r@ =~= Map::empty());
        r
    }

    /// Where the key stands, or the number of entries.
    fn position(&self, key: &ConnKey) -> (r: usize)
        ensures
            r <= self.entries@.len(),
            r < self.entries@.len() ==> self.entries@[r as int].0@ == key@,
            r == self.entries@.len() ==> !self@.contains_key(key@),
    {
        let n = self.entries.len();
        for i in 0..n
            invariant
                n == self.entries@.len(),
                forall|j: int| 0 <= j < i ==> (#[trigger] self.entries@[j]).0@ != key@,
        {
            if same_key(&self.entries[i].0, key) {
                return i;
            }
        }
        assert(!self@.contains_key(key@)) by {
            if self@.contains_key(key@) {
                let j = choose|j: int| #[trigger] has_key(self.entries@, key@, j);
                assert(has_key(self.entries@, key@, j));
                assert(self.entries@[j].0@ == key@);
            }
        }
        n
    }

    /// The open connection with the key. Where there is none, one has to be opened.
    pub fn find(&self, key: &ConnKey) -> (r: Option<&H>)
        ensures
            match r {
                Some(h) => self@.contains_key(key@) && self@[key@] == *h,
                None => !self@.contains_key(key@),
            },
    {
        proof {
            use_type_invariant(self);
            lemma_by_key(self.entries@);
        }
        let i = self.position(key);
        if i < self.entries.len() {
            Some(&self.entries[i].1)
        } else {
            None
        }
    }

    /// Drops the connection with the key, if there is one.
    fn evict(&mut self, key: &ConnKey)
        ensures
            final(self)@ == old(self)@.remove(key@),
    {
        proof {
            use_type_invariant(&*self);
        }
        let i = self.position(key);
        let ghost before = self.entries@;
        let ghost open = self@;
        let mut entries: Vec<(ConnKey, H)> = Vec::new();
        std::mem::swap(&mut entries, &mut self.entries);
        if i < entries.len() {
            entries.remove(i);
            proof {
                lemma_remove(before, i as int);
            }
        } else {
            assert(open.remove(key@) =~= open);
        }
        *self = Cache { entries };
    }

    /// Keeps an open connection under the key, in place of any that was there.
    fn store(&mut self, key: ConnKey, handle: H)
        ensures
            final(self)@ == old(self)@.insert(key@, handle),
    {
        let ghost open = self@;
        let ghost k = key@;
        self.evict(&key);
        proof {
            use_type_invariant(&*self);
        }
        let ghost before = self.entries@;
        assert(self@ == open.remove(k));
        let mut entries: Vec<(ConnKey, H)> = Vec::new();
        std::mem::swap(&mut entries, &mut self.entries);
        entries.push((key, handle));
        proof {
            lemma_push(before, (key, handle));
        }
        *self = Cache { entries };
        assert(open.remove(k).insert(k, handle) =~= open.insert(k, handle));
    }

    /// Goes on with a call after an event: settles the cache and says what to do next.
    pub fn advance(&mut self, key: &ConnKey, event: Event<H>) -> (r: Move)
        ensures
            r == move_after(old(self)@, key@, event),
            final(self)@ == open_after(old(self)@, key@, event),
    {
        match event {
            Event::Asked => match self.find(key) {
                Some(_) => Move::Run,
                None => Move::Connect,
            },
            Event::Opened(handle) => {
                self.store(key.copy(), handle);
                Move::Run
            },
            Event::Refused => Move::Report,
            Event::Ended { failed } => {
                if failed {
                    self.evict(key);
                }
                Move::Report
            },
        }
    }
}

/// Without entry `i` its key leads nowhere, and nothing else changes.
proof fn lemma_remove<H>(a: Seq<(ConnKey, H)>, i: int)
    requires
        distinct(a),
        0 <= i < a.len(),
    ensures
        distinct(a.remove(i)),
        by_key(a.remove(i)) == by_key(a).remove(a[i].0@),
{
    let b = a.remove(i);
    let gone = a[i].0@;
    a.remove_ensures(i);
    assert(distinct(b)) by {
        assert forall|j: int, k: int| 0 <= j < k < b.len() implies (#[trigger] b[j]).0@ != (
        #[trigger] b[k]).0@ by {
            let j1 = if j < i { j } else { j + 1 };
            let k1 = if k < i { k } else { k + 1 };
            assert(b[j] == a[j1] && b[k] == a[k1]);
        }
    }
    lemma_by_key(a);
    lemma_by_key(b);
    let m = by_key(a).remove(gone);
    assert forall|key: ConnKeyV| by_key(b).contains_key(key) <==> m.contains_key(key) by {
        if by_key(b).contains_key(key) {
            let j = choose|j: int| #[trigger] has_key(b, key, j);
            assert(has_key(b, key, j));
            let j1 = if j < i { j } else { j + 1 };
            assert(b[j] == a[j1]);
            assert(has_key(a, key, j1));
            if j1 < i {
                assert(a[j1].0@ != a[i].0@);
            } else {
                assert(a[i].0@ != a[j1].0@);
            }
        }
        if m.contains_key(key) {
            let j = choose|j: int| #[trigger] has_key(a, key, j);
            assert(has_key(a, key, j));
            let j1 = if j < i { j } else { j - 1 };
            assert(b[j1] == a[j]);
            assert(has_key(b, key, j1));
        }
    }
    assert forall|key: ConnKeyV| by_key(b).contains_key(key) implies by_key(b)[key] == m[key] by {
        let j = choose|j: int| #[trigger] has_key(b, key, j);
        assert(has_key(b, key, j));
        let j1 = if j < i { j } else { j + 1 };
        assert(b[j] == a[j1]);
    }
    assert(by_key(b) =~= m);
}

/// With a new entry its key leads to it, and nothing else changes.
proof fn lemma_push<H>(a: Seq<(ConnKey, H)>, e: (ConnKey, H))
    requires
        distinct(a),
        !by_key(a).contains_key(e.0@),
    ensures
        distinct(a.push(e)),
        by_key(a.push(e)) == by_key(a).insert(e.0@, e.1),
{
    let b = a.push(e);
    lemma_by_key(a);
    assert(distinct(b)) by {
        assert forall|j: int, k: int| 0 <= j < k < b.len() implies (#[trigger] b[j]).0@ != (
        #[trigger] b[k]).0@ by {
            assert(b[j] == a[j]);
            if k < a.len() {
                assert(b[k] == a[k]);
            } else {
                assert(by_key(a).contains_key(a[j].0@));
            }
        }
    }
    lemma_by_key(b);
    let m = by_key(a).insert(e.0@, e.1);
    assert forall|key: ConnKeyV| by_key(b).contains_key(key) <==> m.contains_key(key) by {
        if by_key(b).contains_key(key) {
            let j = choose|j: int| #[trigger] has_key(b, key, j);
            assert(has_key(b, key, j));
            if j < a.len() {
                assert(has_key(a, key, j));
            }
        }
        if m.contains_key(key) {
            if key == e.0@ {
                assert(has_key(b, key, a.len() as int));
            } else {
                let j = choose|j: int| #[trigger] has_key(a, key, j);
                assert(has_key(a, key, j));
                assert(has_key(b, key, j));
            }
        }
    }
    assert forall|key: ConnKeyV| by_key(b).contains_key(key) implies by_key(b)[key] == m[key] by {
        let j = choose|j: int| #[trigger] has_key(b, key, j);
        assert(has_key(b, key, j));
        if j < a.len() {
            assert(b[j] == a[j]);
            assert(by_key(a).contains_key(a[j].0@));
        } else {
            assert(b[j] == e);
        }
    }
    assert(by_key(b) =~= m);
}

/// A connection that failed is not used again: the next call with its key opens a new one,
/// whether the failed one was opened for the call or had been open before.
pub proof fn law_failed_connection_is_reopened<H>(open: Map<ConnKeyV, H>, key: ConnKeyV, handle: H)
    ensures
        ({
            let after = open_after(open, key, Event::Ended { failed: true });
            move_after(after, key, Event::<H>::Asked) == Move::Connect
        }),
        open_after(
            open_after(open, key, Event::Opened(handle)),
            key,
            Event::Ended { failed: true },
        ) == open_after(open, key, Event::Ended { failed: true }),
{
}

/// A connection that did not fail stays: the next call with the same key works on it.
pub proof fn law_good_connection_is_reused<H>(open: Map<ConnKeyV, H>, key: ConnKeyV, handle: H)
    ensures
        ({
            let after = open_after(
                open_after(open, key, Event::Opened(handle)),
                key,
                Event::Ended { failed: false },
            );
            move_after(after, key, Event::<H>::Asked) == Move::Run && after[key] == handle
        }),
{
}

/// A connection that could not be opened leaves nothing behind: the next call tries again.
pub proof fn law_refused_connection_is_tried_again<H>(open: Map<ConnKeyV, H>, key: ConnKeyV)
    requires
        move_after(open, key, Event::<H>::Asked) == Move::Connect,
    ensures
        open_after(open, key, Event::<H>::Refused) == open,
        move_after(open_after(open, key, Event::<H>::Refused), key, Event::<H>::Asked)
            == Move::Connect,
{
}

/// Whatever happens in a call, the connections with other keys stay as they are.
pub proof fn law_other_connections_stay<H>(
    open: Map<ConnKeyV, H>,
    key: ConnKeyV,
    event: Event<H>,
    other: ConnKeyV,
)
    requires
        other != key,
    ensures
        open_after(open, key, event).contains_key(other) == open.contains_key(other),
        open.contains_key(other) ==> open_after(open, key, event)[other] == open[other],
{
}

} // verus!
