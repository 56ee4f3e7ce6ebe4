//! Session management: client identifiers, the table of running sessions,
//! and the decision a session takes on each command it receives.

use vstd::prelude::*;
use crate::protocol::{ClientID, Command, CommandView, Frame};
use crate::registry::{bodies_of, NotesHandler};

verus! {

/// The session table. `H` is whatever the runtime uses to hold a running
/// session (a task handle). Identifiers come from a counter that only grows.
pub struct NotesServer<H> {
    sessions: Vec<(ClientID, H)>,
    next_client: u64,
}

impl<H> NotesServer<H> {
    /// Identifiers of the sessions in the table, in insertion order.
    pub closed spec fn ids(&self) -> Seq<ClientID> {
        self.sessions@.map_values(|e: (ClientID, H)| e.0)
    }

    pub closed spec fn next_client(&self) -> u64 {
        self.next_client
    }

    pub closed spec fn wf(&self) -> bool {
        &&& self.ids().no_duplicates()
        &&& forall|i: int| 0 <= i < self.ids().len() ==> #[trigger] self.ids()[i] < self.next_client
    }

    pub fn new() -> (r: NotesServer<H>)
        ensures
            r.wf(),
            r.ids() == Seq::<ClientID>::empty(),
            r.next_client() == 0,
    {
        let r = NotesServer { sessions: Vec::new(), next_client: 0 };
        assert(r.ids() =~= Seq::<ClientID>::empty());
        r
    }

    /// Records a new session under a fresh identifier and returns it; `None`
    /// once the identifiers are used up, with the table unchanged.
    pub fn handle_connection(&mut self, handle: H) -> (r: Option<ClientID>)
        requires
            old(self).wf(),
        ensures
            final(self).wf(),
            old(self).next_client() == u64::MAX ==> r is None && final(self).ids() == old(self).ids()
                && final(self).next_client() == old(self).next_client()
                && final(self).handles() == old(self).handles(),
            old(self).next_client() < u64::MAX ==> r == Some(old(self).next_client())
                && final(self).ids() == old(self).ids().push(old(self).next_client())
                && final(self).handles() == old(self).handles().push(handle)
                && final(self).next_client() == old(self).next_client() + 1,
    {
        if self.next_client == u64::MAX {
            return None;
        }
        let id = self.next_client;
        self.sessions.push((id, handle));
        self.next_client = id + 1;
        assert(self.ids() =~= old(self).ids().push(id));
        assert(self.handles() =~= old(self).handles().push(handle));
        assert forall|i: int, j: int| 0 <= i < j < self.ids().len() implies self.ids()[i] != self.ids()[j] by {
            assert(old(self).ids().no_duplicates());
        }
        Some(id)
    }

    /// Takes the session `id` out of the table, handing back its handle.
    pub fn remove(&mut self, id: ClientID) -> (r: Option<H>)
        requires
            old(self).wf(),
        ensures
            final(self).wf(),
            final(self).next_client() == old(self).next_client(),
            !final(self).ids().contains(id),
            r is Some <==> old(self).ids().contains(id),
            r matches Some(h) ==> exists|i: int| 0 <= i < old(self).ids().len()
                && old(self).ids()[i] == id && old(self).handles()[i] == h,
            final(self).ids() == old(self).ids().filter(|x: ClientID| x != id),
    {
        let mut i: usize = 0;
        while i < self.sessions.len()
            invariant
                i <= self.sessions@.len(),
                self.sessions@ == old(self).sessions@,
                self.next_client == old(self).next_client,
                old(self).wf(),
                forall|k: int| 0 <= k < i ==> (#[trigger] self.ids()[k]) != id,
            decreases self.sessions@.len() - i,
        {
            if self.sessions[i].0 == id {
                let (_, h) = self.sessions.remove(i);
                proof {
                    let o = old(self).ids();
                    assert(self.ids() =~= o.remove(i as int));
                    assert(o[i as int] == id);
                    assert(old(self).handles()[i as int] == h);
                    assert forall|k: int| 0 <= k < o.len() && k != i implies o[k] != id by {
                        assert(o.no_duplicates());
                    }
                    lemma_filter_out_one(o, i as int, id);
                    let r = o.remove(i as int);
                    assert forall|a: int, b: int| 0 <= a < b < r.len() implies r[a] != r[b] by {
                        let a2 = if a < i { a } else { a + 1 };
                        let b2 = if b < i { b } else { b + 1 };
                        assert(r[a] == o[a2] && r[b] == o[b2]);
                    }
                    assert forall|a: int| 0 <= a < r.len() implies #[trigger] r[a] < self.next_client by {
                        let a2 = if a < i { a } else { a + 1 };
                        assert(r[a] == o[a2]);
                    }
                }
                return Some(h);
            }
            i = i + 1;
        }
        proof {
            let o = old(self).ids();
            assert(self.ids() == o);
            assert(!o.contains(id)) by {
                if o.contains(id) {
                    let k = choose|k: int| 0 <= k < o.len() && o[k] == id;
                    assert(self.ids()[k] != id);
                }
            }
            lemma_filter_out_none(o, id);
        }
        None
    }

    /// Handles of the sessions in the table, in insertion order.
    pub closed spec fn handles(&self) -> Seq<H> {
        self.sessions@.map_values(|e: (ClientID, H)| e.1)
    }

    /// Empties the table and hands back every handle still in it, in
    /// insertion order.
    pub fn close(self) -> (r: Vec<H>)
        ensures
            r@ == self.handles(),
    {
        let ghost all = self.handles();
        let mut out: Vec<H> = Vec::new();
        let mut rest = self.sessions;
        while rest.len() > 0
            invariant
                out@ + rest@.map_values(|e: (ClientID, H)| e.1) == all,
            decreases rest@.len(),
        {
            let ghost before = rest@;
            let (_, h) = rest.remove(0);
            proof {
                assert(before.map_values(|e: (ClientID, H)| e.1) =~= seq![h] + rest@.map_values(|e: (ClientID, H)| e.1));
            }
            let ghost out_before = out@;
            out.push(h);
            assert(out@ + rest@.map_values(|e: (ClientID, H)| e.1) =~= out_before + (seq![h] + rest@.map_values(|e: (ClientID, H)| e.1)));
        }
        assert(out@ =~= out@ + rest@.map_values(|e: (ClientID, H)| e.1));
        out
    }
}

proof fn lemma_filter_out_none(s: Seq<u64>, id: u64)
    requires
        !s.contains(id),
    ensures
        s.filter(|x: u64| x != id) == s,
    decreases s.len(),
{
    reveal(Seq::filter);
    if s.len() > 0 {
        assert(!s.drop_last().contains(id)) by {
            if s.drop_last().contains(id) {
                let k = choose|k: int| 0 <= k < s.drop_last().len() && s.drop_last()[k] == id;
                assert(s[k] == id);
            }
        }
        lemma_filter_out_none(s.drop_last(), id);
        assert(s.last() != id) by {
            assert(s[s.len() - 1] == s.last());
        }
        assert(s.drop_last().push(s.last()) =~= s);
    }
}

proof fn lemma_filter_out_one(s: Seq<u64>, i: int, id: u64)
    requires
        0 <= i < s.len(),
        s[i] == id,
        forall|k: int| 0 <= k < s.len() && k != i ==> s[k] != id,
    ensures
        s.filter(|x: u64| x != id) == s.remove(i),
    decreases s.len(),
{
    reveal(Seq::filter);
    let d = s.drop_last();
    if i == s.len() - 1 {
        assert(!d.contains(id)) by {
            if d.contains(id) {
                let k = choose|k: int| 0 <= k < d.len() && d[k] == id;
                assert(s[k] == id);
            }
        }
        lemma_filter_out_none(d, id);
        assert(s.remove(i) =~= d);
    } else {
        lemma_filter_out_one(d, i, id);
        assert(s.last() != id) by {
            assert(s[s.len() - 1] == s.last());
        }
        assert(s.remove(i) =~= d.remove(i).push(s.last()));
    }
}

/// What a session does after a command.
pub enum Action {
    /// Wait for the next command.
    Continue,
    /// Send this frame, then wait for the next command.
    Reply(Frame),
    /// Notify the reaper that session `id` is over, then end the session.
    Disconnect(ClientID),
}

/// The frame a session opens with: the client's identifier.
pub fn handshake(client_id: ClientID) -> (r: Frame)
    ensures
        r@ == CommandView::Id(client_id),
{
    Frame(Command::Id(client_id))
}

/// Runs one command of session `client_id` against the registry at time `now`.
/// `Create` stores a note and answers nothing; `Read` answers the bodies of all
/// live notes in registry order; `Disconnect(id)` ends the session and reports
/// `id`; `Quit` ends the session and reports the session's own identifier;
/// any other command is ignored.
pub fn run_command(notes: &mut NotesHandler, client_id: ClientID, command: Command, now: u64) -> (r: Action)
    requires
        old(notes).wf(),
    ensures
        final(notes).wf(),
        match command@ {
            CommandView::Create(body) => r is Continue
                && (old(notes).next_id() < u64::MAX ==> final(notes).notes() == old(notes).notes().push(
                    crate::registry::NoteView { id: old(notes).next_id(), body, created_at: now },
                ))
                && (old(notes).next_id() == u64::MAX ==> final(notes).notes() == old(notes).notes()),
            CommandView::Read => (r matches Action::Reply(f) && f@ == CommandView::List(bodies_of(old(notes).notes())))
                && final(notes).notes() == old(notes).notes(),
            CommandView::Disconnect(id) => r == Action::Disconnect(id) && final(notes).notes() == old(notes).notes(),
            CommandView::Quit => r == Action::Disconnect(client_id) && final(notes).notes() == old(notes).notes(),
            _ => r is Continue && final(notes).notes() == old(notes).notes(),
        },
{
    match command {
        Command::Create(body) => {
            let _ = notes.create_note(body, now);
            Action::Continue
        },
        Command::Read => {
            let bodies = notes.bodies();
            Action::Reply(Frame(Command::List(bodies)))
        },
        Command::Disconnect(id) => Action::Disconnect(id),
        Command::Quit => Action::Disconnect(client_id),
        _ => Action::Continue,
    }
}

/// What a session does when its stream ends cleanly: it reports itself to
/// the reaper, so that its table entry does not outlive it.
pub fn end_of_stream(client_id: ClientID) -> (r: Action)
    ensures
        r == Action::Disconnect(client_id),
{
    Action::Disconnect(client_id)
}

} // verus!
