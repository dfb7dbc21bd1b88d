//! The keystore: byte-string keys to byte-string values, each with an optional
//! expiry deadline.
use vstd::prelude::*;
use crate::command::{Command, Request, word_of2, word_of4};
use crate::decode::copy_range;
use crate::frame::{Frame, Value};

verus! {

/// One stored key: its bytes, its value, and its deadline, if any.
pub type Entry = (Vec<u8>, Vec<u8>, Option<u64>);

/// The mapping that a list of entries stands for.
pub open spec fn table(s: Seq<Entry>) -> Map<Seq<u8>, (Seq<u8>, Option<u64>)>
    decreases s.len(),
{
    if s.len() == 0 {
        Map::empty()
    } else {
        table(s.drop_last()).insert(s.last().0@, (s.last().1@, s.last().2))
    }
}

pub open spec fn keys_unique(s: Seq<Entry>) -> bool {
    forall|i: int, j: int| 0 <= i < s.len() && 0 <= j < s.len() && i != j ==> s[i].0@ != s[j].0@
}

/// A record is visible until its deadline.
pub open spec fn live(rec: (Seq<u8>, Option<u64>), now: u64) -> bool {
    match rec.1 {
        None => true,
        Some(d) => now < d,
    }
}

pub open spec fn word_pong() -> Seq<u8> { seq![80u8, 79u8, 78u8, 71u8] }
pub open spec fn word_ok() -> Seq<u8> { seq![79u8, 75u8] }

/// The reply to a request against the mapping `m` at time `now`.
pub open spec fn reply_of(m: Map<Seq<u8>, (Seq<u8>, Option<u64>)>, req: Request, now: u64) -> Value {
    match req {
        Request::Ping => Value::Bulk(Some(word_pong())),
        Request::Echo(msg) => Value::Bulk(Some(msg)),
        Request::Get(k) => if m.contains_key(k) && live(m[k], now) {
            Value::Bulk(Some(m[k].0))
        } else {
            Value::Bulk(None)
        },
        Request::SetValue(_, _, _) => Value::Bulk(Some(word_ok())),
    }
}

/// The mapping after a request: `SET` replaces the key's record, nothing else writes.
pub open spec fn store_after(m: Map<Seq<u8>, (Seq<u8>, Option<u64>)>, req: Request) -> Map<Seq<u8>, (Seq<u8>, Option<u64>)> {
    match req {
        Request::SetValue(k, v, e) => m.insert(k, (v, e)),
        _ => m,
    }
}

proof fn lemma_table_find(s: Seq<Entry>, i: int)
    requires
        keys_unique(s),
        0 <= i < s.len(),
    ensures
        table(s).contains_key(s[i].0@),
        table(s)[s[i].0@] == (s[i].1@, s[i].2),
    decreases s.len(),
{
    if i < s.len() - 1 {
        let t = s.drop_last();
        assert(t[i] == s[i]);
        assert(keys_unique(t)) by {
            assert forall|a: int, b: int| 0 <= a < t.len() && 0 <= b < t.len() && a != b implies t[a].0@ != t[b].0@ by {
                assert(t[a] == s[a] && t[b] == s[b]);
            };
        };
        lemma_table_find(t, i);
        assert(s[i].0@ != s.last().0@);
    }
}

proof fn lemma_table_absent(s: Seq<Entry>, k: Seq<u8>)
    requires
        forall|i: int| 0 <= i < s.len() ==> (#[trigger] s[i]).0@ != k,
    ensures
        !table(s).contains_key(k),
    decreases s.len(),
{
    if s.len() > 0 {
        let t = s.drop_last();
        assert forall|i: int| 0 <= i < t.len() implies (#[trigger] t[i]).0@ != k by {
            assert(t[i] == s[i]);
        };
        lemma_table_absent(t, k);
        assert(s[s.len() - 1].0@ != k);
    }
}

proof fn lemma_table_update(s: Seq<Entry>, i: int, e: Entry)
    requires
        keys_unique(s),
        0 <= i < s.len(),
        e.0@ == s[i].0@,
    ensures
        table(s.update(i, e)) == table(s).insert(e.0@, (e.1@, e.2)),
    decreases s.len(),
{
    let u = s.update(i, e);
    if i == s.len() - 1 {
        assert(u.drop_last() =~= s.drop_last());
        let t = s.drop_last();
        assert forall|j: int| 0 <= j < t.len() implies (#[trigger] t[j]).0@ != e.0@ by {
            assert(t[j] == s[j]);
        };
        lemma_table_absent(t, e.0@);
        assert(table(u) =~= table(s).insert(e.0@, (e.1@, e.2)));
    } else {
        let t = s.drop_last();
        assert(keys_unique(t)) by {
            assert forall|a: int, b: int| 0 <= a < t.len() && 0 <= b < t.len() && a != b implies t[a].0@ != t[b].0@ by {
                assert(t[a] == s[a] && t[b] == s[b]);
            };
        };
        assert(u.drop_last() =~= t.update(i, e));
        lemma_table_update(t, i, e);
        assert(s[i].0@ != s.last().0@);
        assert(u.last() == s.last());
        assert(table(u) =~= table(s).insert(e.0@, (e.1@, e.2)));
    }
}

/// The keystore.
pub struct Db {
    pub entries: Vec<Entry>,
}

impl Db {
    pub open spec fn view(&self) -> Map<Seq<u8>, (Seq<u8>, Option<u64>)> {
        table(self.entries@)
    }

    pub open spec fn wf(&self) -> bool {
        keys_unique(self.entries@)
    }

    /// An empty keystore.
    pub fn new() -> (r: Db)
        ensures
            r.wf(),
            r@ == Map::<Seq<u8>, (Seq<u8>, Option<u64>)>::empty(),
    {
        Db { entries: Vec::new() }
    }

    fn find(&self, key: &[u8]) -> (r: Option<usize>)
        requires
            self.wf(),
        ensures
            match r {
                Some(i) => i < self.entries@.len() && self.entries@[i as int].0@ == key@,
                None => forall|i: int| 0 <= i < self.entries@.len() ==> (#[trigger] self.entries@[i]).0@ != key@,
            },
    {
        let mut i: usize = 0;
        while i < self.entries.len()
            invariant
                i <= self.entries@.len(),
                forall|j: int| 0 <= j < i ==> (#[trigger] self.entries@[j]).0@ != key@,
            decreases self.entries@.len() - i,
        {
            if bytes_eq(self.entries[i].0.as_slice(), key) {
                return Some(i);
            }
            i = i + 1;
        }
        None
    }

    /// Carries out a command at time `now_ms` and returns the reply.
    pub fn apply(&mut self, command: Command, now_ms: u64) -> (r: Frame)
        requires
            old(self).wf(),
        ensures
            final(self).wf(),
            final(self)@ == store_after(old(self)@, command@),
            r@ == reply_of(old(self)@, command@, now_ms),
    {
        match command {
            Command::Ping => Frame::Bulk(Some(word_of4(80, 79, 78, 71))),
            Command::Echo(message) => Frame::Bulk(Some(message)),
            Command::SetValue(key, value, expires_at) => {
                let ghost old_entries = self.entries@;
                match self.find(key.as_slice()) {
                    Some(i) => {
                        let ghost e = (key, value, expires_at);
                        proof { lemma_table_update(old_entries, i as int, e); }
                        self.entries.set(i, (key, value, expires_at));
                        assert(self.entries@ == old_entries.update(i as int, e));
                        assert(keys_unique(self.entries@)) by {
                            assert forall|a: int, b: int| 0 <= a < self.entries@.len() && 0 <= b < self.entries@.len() && a != b
                                implies self.entries@[a].0@ != self.entries@[b].0@ by {
                                if a != i && b != i {
                                    assert(self.entries@[a] == old_entries[a] && self.entries@[b] == old_entries[b]);
                                } else if a == i {
                                    assert(self.entries@[b] == old_entries[b]);
                                } else {
                                    assert(self.entries@[a] == old_entries[a]);
                                }
                            };
                        };
                    },
                    None => {
                        self.entries.push((key, value, expires_at));
                        assert(self.entries@.drop_last() =~= old_entries);
                        assert(keys_unique(self.entries@)) by {
                            assert forall|a: int, b: int| 0 <= a < self.entries@.len() && 0 <= b < self.entries@.len() && a != b
                                implies self.entries@[a].0@ != self.entries@[b].0@ by {
                                if a < old_entries.len() {
                                    assert(self.entries@[a] == old_entries[a]);
                                }
                                if b < old_entries.len() {
                                    assert(self.entries@[b] == old_entries[b]);
                                }
                            };
                        };
                    },
                }
                Frame::Bulk(Some(word_of2(79, 75)))
            },
            Command::Get(key) => {
                match self.find(key.as_slice()) {
                    Some(i) => {
                        proof { lemma_table_find(self.entries@, i as int); }
                        let live_now = match self.entries[i].2 {
                            None => true,
                            Some(d) => now_ms < d,
                        };
                        if live_now {
                            let v = copy_range(self.entries[i].1.as_slice(), 0, self.entries[i].1.len());
                            assert(v@ =~= self.entries@[i as int].1@);
                            Frame::Bulk(Some(v))
                        } else {
                            Frame::Bulk(None)
                        }
                    },
                    None => {
                        proof { lemma_table_absent(self.entries@, key@); }
                        Frame::Bulk(None)
                    },
                }
            },
        }
    }
}

fn bytes_eq(a: &[u8], b: &[u8]) -> (r: bool)
    ensures
        r == (a@ == b@),
{
    if a.len() != b.len() {
        return false;
    }
    let mut i: usize = 0;
    while i < a.len()
        invariant
            a@.len() == b@.len(),
            i <= a@.len(),
            forall|j: int| 0 <= j < i ==> a@[j] == b@[j],
        decreases a@.len() - i,
    {
        if a[i] != b[i] {
            return false;
        }
        i = i + 1;
    }
    assert(a@ =~= b@);
    true
}

} // verus!

verus! {

/// After `SET k v`, `GET k` replies with `v`.
pub proof fn law_set_then_get(m: Map<Seq<u8>, (Seq<u8>, Option<u64>)>, k: Seq<u8>, v: Seq<u8>, now: u64)
    ensures
        reply_of(store_after(m, Request::SetValue(k, v, None)), Request::Get(k), now) == Value::Bulk(Some(v)),
{
}

/// A second `SET` of the same key replaces the first: `GET` sees the later value.
pub proof fn law_set_overwrites(
    m: Map<Seq<u8>, (Seq<u8>, Option<u64>)>,
    k: Seq<u8>,
    v: Seq<u8>,
    e: Option<u64>,
    w: Seq<u8>,
    now: u64,
)
    ensures
        reply_of(store_after(store_after(m, Request::SetValue(k, v, e)), Request::SetValue(k, w, None)), Request::Get(k), now)
            == Value::Bulk(Some(w)),
{
    assert(store_after(m, Request::SetValue(k, v, e)).insert(k, (w, None::<u64>))[k] == (w, None::<u64>));
}

/// `GET` of a key that was never set replies with the null bulk.
pub proof fn law_get_absent(m: Map<Seq<u8>, (Seq<u8>, Option<u64>)>, k: Seq<u8>, now: u64)
    requires
        !m.contains_key(k),
    ensures
        reply_of(m, Request::Get(k), now) == Value::Bulk(None),
{
}

/// A key set with a deadline reads as absent from the deadline on.
pub proof fn law_expired(m: Map<Seq<u8>, (Seq<u8>, Option<u64>)>, k: Seq<u8>, v: Seq<u8>, d: u64, now: u64)
    requires
        d <= now,
    ensures
        reply_of(store_after(m, Request::SetValue(k, v, Some(d))), Request::Get(k), now) == Value::Bulk(None),
{
}

/// `SET k v PX 10` received at `t0`, then `GET k` at least 11 ms later, replies
/// with the null bulk.
pub proof fn law_px_expiry(m: Map<Seq<u8>, (Seq<u8>, Option<u64>)>, k: Seq<u8>, v: Seq<u8>, t0: u64, t1: u64)
    requires
        t1 >= t0 + 11,
    ensures
        reply_of(
            store_after(m, Request::SetValue(k, v, Some(crate::command::deadline(t0, 10, 1)))),
            Request::Get(k),
            t1,
        ) == Value::Bulk(None),
{
}

/// The decision of the connection loop for one request frame: the command's
/// reply, or the reason it is not a command (the keystore is then untouched).
pub fn respond(db: &mut Db, frame: &Frame, now_ms: u64) -> (r: Result<Frame, crate::command::Error>)
    requires
        old(db).wf(),
    ensures
        final(db).wf(),
        match crate::command::command_of(frame@, now_ms) {
            Ok(req) => r matches Ok(f) && f@ == reply_of(old(db)@, req, now_ms) && final(db)@ == store_after(old(db)@, req),
            Err(e) => r == Err::<Frame, crate::command::Error>(e) && final(db)@ == old(db)@,
        },
{
    let command = Command::try_from_frame(frame, now_ms)?;
    Ok(db.apply(command, now_ms))
}

} // verus!
