//! The note registry: live notes ordered by identifier, a counter that hands
//! out identifiers, and eviction of notes whose time-to-live has elapsed.
//! Time is a count of seconds from a fixed clock origin.

use vstd::prelude::*;

verus! {

pub type NoteID = u64;

/// How long a note lives, in seconds.
pub const NOTE_TIMEOUT: u64 = 60;

pub ghost struct NoteView {
    pub id: u64,
    pub body: Seq<char>,
    pub created_at: u64,
}

#[derive(Debug)]
pub struct Note {
    id: NoteID,
    body: String,
    pub created_at: u64,
}

impl View for Note {
    type V = NoteView;

    closed spec fn view(&self) -> NoteView {
        NoteView { id: self.id, body: self.body@, created_at: self.created_at }
    }
}

/// `n` has lived its time-to-live at time `now`.
pub open spec fn expired(n: NoteView, now: u64) -> bool {
    now as int - n.created_at as int >= NOTE_TIMEOUT as int
}

/// The notes that are still live at time `now`.
pub open spec fn live_at(now: u64) -> spec_fn(NoteView) -> bool {
    |n: NoteView| !expired(n, now)
}

pub open spec fn views(s: Seq<Note>) -> Seq<NoteView> {
    s.map_values(|n: Note| n@)
}

pub open spec fn texts(s: Seq<String>) -> Seq<Seq<char>> {
    s.map_values(|t: String| t@)
}

pub open spec fn bodies_of(s: Seq<NoteView>) -> Seq<Seq<char>> {
    s.map_values(|n: NoteView| n.body)
}

impl Note {
    pub fn new(id: NoteID, body: String, created_at: u64) -> (r: Note)
        ensures
            r@ == (NoteView { id, body: body@, created_at }),
    {
        Note { id, body, created_at }
    }

    pub fn id(&self) -> (r: NoteID)
        ensures
            r == self@.id,
    {
        self.id
    }

    /// Seconds since creation at time `now`, zero if `now` is earlier.
    pub fn elapsed(&self, now: u64) -> (r: u64)
        ensures
            r == (if now >= self@.created_at { (now - self@.created_at) as u64 } else { 0 }),
    {
        if now >= self.created_at {
            now - self.created_at
        } else {
            0
        }
    }

    pub fn body(&self) -> (r: &str)
        ensures
            r@ == self@.body,
    {
        self.body.as_str()
    }

    pub fn copy(&self) -> (r: Note)
        ensures
            r@ == self@,
    {
        Note { id: self.id, body: self.body.clone(), created_at: self.created_at }
    }
}

/// What `create_note(body, now)` does to `before`, leaving `after` and
/// returning `r`: the counter's value becomes the new note's identifier.
pub open spec fn create_result(
    before: NotesHandler,
    body: Seq<char>,
    now: u64,
    after: NotesHandler,
    r: Option<NoteID>,
) -> bool {
    &&& before.next_id() == u64::MAX ==> r is None && after.notes() == before.notes()
        && after.next_id() == before.next_id()
    &&& before.next_id() < u64::MAX ==> r == Some(before.next_id())
        && after.next_id() == before.next_id() + 1
        && after.notes() == before.notes().push(NoteView { id: before.next_id(), body, created_at: now })
}

/// Two creates in a row on one registry hand out strictly increasing
/// identifiers, and a new identifier differs from that of every live note.
pub proof fn lemma_sequential_creates_increase(
    a: NotesHandler,
    b: NotesHandler,
    c: NotesHandler,
    body1: Seq<char>,
    now1: u64,
    body2: Seq<char>,
    now2: u64,
    id1: NoteID,
    id2: NoteID,
)
    requires
        a.wf(),
        create_result(a, body1, now1, b, Some(id1)),
        create_result(b, body2, now2, c, Some(id2)),
    ensures
        id1 < id2,
        forall|i: int| 0 <= i < a.notes().len() ==> (#[trigger] a.notes()[i]).id != id1,
        forall|i: int| 0 <= i < b.notes().len() ==> (#[trigger] b.notes()[i]).id != id2,
{
    assert forall|i: int| 0 <= i < a.notes().len() implies (#[trigger] a.notes()[i]).id < a.next_id() by {
        assert(a.notes()[i] == a.notes@[i]@);
    }
    assert forall|i: int| 0 <= i < b.notes().len() implies (#[trigger] b.notes()[i]).id < b.next_id() by {
        if i < a.notes().len() {
            assert(b.notes()[i] == a.notes()[i]);
        }
    }
}

/// A created note is live right after its creation, with its body; once its
/// time-to-live has elapsed at `later`, eviction leaves no note with its
/// identifier in any registry state that evicts at `later`.
pub proof fn lemma_created_then_expired(
    a: NotesHandler,
    b: NotesHandler,
    body: Seq<char>,
    now: u64,
    id: NoteID,
    s: Seq<NoteView>,
    later: u64,
)
    requires
        a.wf(),
        create_result(a, body, now, b, Some(id)),
        later as int >= now as int + NOTE_TIMEOUT as int,
    ensures
        b.notes().contains(NoteView { id, body, created_at: now }),
        bodies_of(b.notes()).contains(body),
        !s.filter(live_at(later)).contains(NoteView { id, body, created_at: now }),
{
    let n = NoteView { id, body, created_at: now };
    let k = a.notes().len() as int;
    assert(b.notes()[k] == n);
    assert(bodies_of(b.notes())[k] == body);
    if s.filter(live_at(later)).contains(n) {
        let j = choose|j: int| 0 <= j < s.filter(live_at(later)).len() && s.filter(live_at(later))[j] == n;
        s.lemma_filter_pred(live_at(later), j);
    }
}

/// The registry. Notes stand in ascending identifier order, and every
/// identifier is below the counter.
pub struct NotesHandler {
    notes: Vec<Note>,
    next_id: u64,
}

impl NotesHandler {
    pub closed spec fn notes(&self) -> Seq<NoteView> {
        views(self.notes@)
    }

    /// The identifier that the next create hands out.
    pub closed spec fn next_id(&self) -> u64 {
        self.next_id
    }

    pub closed spec fn wf(&self) -> bool {
        &&& forall|i: int, j: int| 0 <= i < j < self.notes@.len()
            ==> (#[trigger] self.notes@[i]).id < (#[trigger] self.notes@[j]).id
        &&& forall|i: int| 0 <= i < self.notes@.len() ==> (#[trigger] self.notes@[i]).id < self.next_id
    }

    pub fn new() -> (r: NotesHandler)
        ensures
            r.wf(),
            r.notes() == Seq::<NoteView>::empty(),
            r.next_id() == 0,
    {
        let r = NotesHandler { notes: Vec::new(), next_id: 0 };
        assert(r.notes() =~= Seq::<NoteView>::empty());
        r
    }

    /// Stores a note with a fresh identifier, created at `now`. `None` once
    /// the identifiers are used up, with the registry unchanged.
    pub fn create_note(&mut self, body: String, now: u64) -> (r: Option<NoteID>)
        requires
            old(self).wf(),
        ensures
            final(self).wf(),
            create_result(*old(self), body@, now, *final(self), r),
    {
        if self.next_id == u64::MAX {
            return None;
        }
        let id = self.next_id;
        self.notes.push(Note::new(id, body, now));
        self.next_id = id + 1;
        assert(self.notes() =~= old(self).notes().push(NoteView { id, body: body@, created_at: now }));
        Some(id)
    }

    /// Position of the note `id`.
    fn position(&self, id: NoteID) -> (r: Option<usize>)
        ensures
            match r {
                Some(i) => i < self.notes@.len() && self.notes@[i as int].id == id,
                None => forall|i: int| 0 <= i < self.notes@.len() ==> (#[trigger] self.notes@[i]).id != id,
            },
    {
        let mut i: usize = 0;
        while i < self.notes.len()
            invariant
                i <= self.notes@.len(),
                forall|k: int| 0 <= k < i ==> (#[trigger] self.notes@[k]).id != id,
            decreases self.notes@.len() - i,
        {
            if self.notes[i].id == id {
                return Some(i);
            }
            i = i + 1;
        }
        None
    }

    /// A copy of the note `id`, if it is live.
    pub fn get(&self, id: NoteID) -> (r: Option<Note>)
        ensures
            match r {
                Some(n) => self.notes().contains(n@) && n@.id == id,
                None => forall|i: int| 0 <= i < self.notes().len() ==> (#[trigger] self.notes()[i]).id != id,
            },
    {
        match self.position(id) {
            Some(i) => {
                let n = self.notes[i].copy();
                assert(self.notes()[i as int] == n@);
                Some(n)
            },
            None => None,
        }
    }

    /// Copies of all live notes, in ascending identifier order.
    pub fn get_all(&self) -> (r: Vec<Note>)
        requires
            self.wf(),
        ensures
            views(r@) == self.notes(),
            forall|i: int, j: int| 0 <= i < j < r@.len() ==> (#[trigger] views(r@)[i]).id < (#[trigger] views(r@)[j]).id,
    {
        let mut out: Vec<Note> = Vec::new();
        let mut i: usize = 0;
        while i < self.notes.len()
            invariant
                i <= self.notes@.len(),
                out@.len() == i,
                forall|j: int| 0 <= j < i ==> (#[trigger] out@[j])@ == self.notes@[j]@,
            decreases self.notes@.len() - i,
        {
            let c = self.notes[i].copy();
            out.push(c);
            i = i + 1;
        }
        assert(views(out@) =~= views(self.notes@));
        assert forall|i: int, j: int| 0 <= i < j < out@.len() implies (#[trigger] views(out@)[i]).id < (#[trigger] views(out@)[j]).id by {
            assert(self.notes@[i].id < self.notes@[j].id);
        }
        out
    }

    /// The bodies of all live notes, in ascending identifier order.
    pub fn bodies(&self) -> (r: Vec<String>)
        ensures
            texts(r@) == bodies_of(self.notes()),
    {
        let mut out: Vec<String> = Vec::new();
        let mut i: usize = 0;
        while i < self.notes.len()
            invariant
                i <= self.notes@.len(),
                out@.len() == i,
                forall|j: int| 0 <= j < i ==> (#[trigger] out@[j])@ == self.notes@[j].body@,
            decreases self.notes@.len() - i,
        {
            let b = self.notes[i].body.clone();
            out.push(b);
            i = i + 1;
        }
        assert(texts(out@) =~= bodies_of(self.notes()));
        out
    }

    /// Takes the note `id` out of the registry.
    pub fn remove(&mut self, id: NoteID) -> (r: Option<Note>)
        requires
            old(self).wf(),
        ensures
            final(self).wf(),
            final(self).next_id() == old(self).next_id(),
            match r {
                Some(n) => n@.id == id && exists|i: int| 0 <= i < old(self).notes().len()
                    && old(self).notes()[i] == n@ && final(self).notes() == old(self).notes().remove(i),
                None => final(self).notes() == old(self).notes() && forall|i: int|
                    0 <= i < old(self).notes().len() ==> (#[trigger] old(self).notes()[i]).id != id,
            },
    {
        match self.position(id) {
            Some(i) => {
                let n = self.notes.remove(i);
                assert(self.notes() =~= old(self).notes().remove(i as int));
                assert(old(self).notes()[i as int] == n@);
                Some(n)
            },
            None => None,
        }
    }

    /// Removes every note whose time-to-live has elapsed at `now`, keeping the
    /// others in order, and returns how many were removed.
    pub fn evict_expired(&mut self, now: u64) -> (r: usize)
        requires
            old(self).wf(),
        ensures
            final(self).wf(),
            final(self).next_id() == old(self).next_id(),
            final(self).notes() == old(self).notes().filter(live_at(now)),
            r == old(self).notes().len() - final(self).notes().len(),
    {
        let ghost src = self.notes();
        let mut kept: Vec<Note> = Vec::new();
        let ghost old_seq = self.notes@;
        let mut i: usize = 0;
        while i < self.notes.len()
            invariant
                i <= self.notes@.len(),
                old_seq == self.notes@,
                self.notes@ == old(self).notes@,
                self.next_id == old(self).next_id,
                src == views(old_seq),
                views(kept@) == src.take(i as int).filter(live_at(now)),
                forall|a: int, b: int| 0 <= a < b < kept@.len()
                    ==> (#[trigger] kept@[a]).id < (#[trigger] kept@[b]).id,
                forall|a: int| 0 <= a < kept@.len() ==> exists|k: int| 0 <= k < i
                    && (#[trigger] kept@[a]).id == old_seq[k].id,
                forall|a: int, b: int| 0 <= a < b < old_seq.len()
                    ==> (#[trigger] old_seq[a]).id < (#[trigger] old_seq[b]).id,
            decreases self.notes@.len() - i,
        {
            proof {
                reveal(Seq::filter);
                assert(src.take(i + 1).drop_last() =~= src.take(i as int));
            }
            assert(src[i as int] == self.notes@[i as int]@);
            assert(src[i as int].created_at == self.notes@[i as int].created_at);
            if now as u128 >= self.notes[i].created_at as u128 + NOTE_TIMEOUT as u128 {
                assert(expired(src[i as int], now));
                assert(!live_at(now)(src[i as int]));
                assert(src.take(i + 1).filter(live_at(now)) == src.take(i as int).filter(live_at(now)));
            } else {
                assert(!expired(src[i as int], now));
                assert(live_at(now)(src[i as int]));
                assert(src.take(i + 1).filter(live_at(now)) == src.take(i as int).filter(live_at(now)).push(src[i as int]));
                let c = self.notes[i].copy();
                let ghost before = kept@;
                kept.push(c);
                assert(kept@ == before.push(c));
                assert(views(kept@) =~= views(before).push(c@));
            }
            i = i + 1;
        }
        proof {
            assert(src.take(i as int) =~= src);
        }
        let before = self.notes.len();
        self.notes = kept;
        let removed = before - self.notes.len();
        removed
    }
}

} // verus!
