//! Session management: the session-store capability the web layer consumes
//! — insert with a lifetime, lookup, removal, and expiry sweeps — and a
//! verified in-memory store implementing it, keyed by user id with
//! per-entry expiry.

use vstd::prelude::*;

use crate::auth::now;

verus! {

/// The default lifetime of an authentication key, in seconds: one year.
pub const DEFAULT_KEY_LIFETIME: i64 = 31536000;

/// An authentication key with the Unix time, in seconds, at which it
/// expires.
#[derive(Clone, Debug)]
pub struct AuthKey {
    pub expires: i64,
    pub secret: String,
}

/// The sessions of `m` that survive an expiry sweep at the clock reading
/// `t`: exactly those whose expiry lies strictly after `t`, unchanged.
pub open spec fn live_sessions(m: Map<int, (int, Seq<char>)>, t: int) -> Map<
    int,
    (int, Seq<char>),
> {
    Map::new(|id: int| m.dom().contains(id) && m[id].0 > t, |id: int| m[id])
}

/// The session-store capability: user id to (expiry, secret).
pub trait SessionManager {
    /// The sessions the store holds.
    spec fn session_entries(&self) -> Map<int, (int, Seq<char>)>;

    /// Stores a key for the user, replacing any key the user had; the
    /// recorded expiry is the clock reading plus the default lifetime, so at
    /// least `DEFAULT_KEY_LIFETIME` — all a contract can pin of a
    /// clock-dependent value.
    fn insert(&mut self, id: i32, key: String)
        ensures
            exists|e: int|
                e >= DEFAULT_KEY_LIFETIME as int && final(self).session_entries() == #[trigger] old(
                    self,
                ).session_entries().insert(id as int, (e, key@)),
    ;

    /// Stores a key for the user with the given expiry, replacing any key
    /// the user had.
    fn insert_for(&mut self, id: i32, key: String, expires: i64)
        ensures
            final(self).session_entries() == old(self).session_entries().insert(
                id as int,
                (expires as int, key@),
            ),
    ;

    /// Drops the user's key, if any.
    fn remove(&mut self, id: i32)
        ensures
            final(self).session_entries() == old(self).session_entries().remove(id as int),
    ;

    /// The user's current secret, if any.
    fn get(&self, id: i32) -> (r: Option<String>)
        ensures
            match r {
                Option::Some(secret) => self.session_entries().dom().contains(id as int)
                    && secret@ == self.session_entries()[id as int].1,
                Option::None => !self.session_entries().dom().contains(id as int),
            },
    ;

    /// Drops every session.
    fn clear_all(&mut self)
        ensures
            final(self).session_entries() == Map::<int, (int, Seq<char>)>::empty(),
    ;

    /// Drops exactly the sessions whose expiry is at or before the given
    /// clock reading, keeping every other session unchanged.
    fn clear_expired_at(&mut self, time: i64)
        ensures
            final(self).session_entries() == live_sessions(
                old(self).session_entries(),
                time as int,
            ),
    ;

    /// Drops expired sessions: whatever the clock read, the store is left
    /// exactly filtered at some nonnegative reading — every survivor was
    /// already held, unchanged, with an expiry strictly beyond it.
    fn clear_expired(&mut self)
        ensures
            exists|t: int|
                t >= 0 && final(self).session_entries() == #[trigger] live_sessions(
                    old(self).session_entries(),
                    t,
                ),
    ;
}

/// The first entry for `id`, as (expiry, secret).
pub open spec fn find_entry(s: Seq<(i32, AuthKey)>, id: int) -> Option<(int, Seq<char>)>
    decreases s.len(),
{
    if s.len() == 0 {
        Option::None
    } else if s.first().0 == id {
        Option::Some((s.first().1.expires as int, s.first().1.secret@))
    } else {
        find_entry(s.drop_first(), id)
    }
}

/// The sessions a list of keyed entries holds.
pub open spec fn entries_map(s: Seq<(i32, AuthKey)>) -> Map<int, (int, Seq<char>)> {
    Map::new(|id: int| find_entry(s, id) is Some, |id: int| find_entry(s, id).unwrap())
}

/// No two entries share an id.
pub open spec fn ids_unique(s: Seq<(i32, AuthKey)>) -> bool {
    forall|i: int, j: int| 0 <= i < j < s.len() ==> (#[trigger] s[i]).0 != (#[trigger] s[j]).0
}

/// Appending an entry leaves earlier ids found first.
proof fn lemma_find_push(s: Seq<(i32, AuthKey)>, e: (i32, AuthKey))
    ensures
        forall|x: int| #[trigger]
            find_entry(s.push(e), x) == (if find_entry(s, x) is Some {
                find_entry(s, x)
            } else if e.0 == x {
                Option::Some((e.1.expires as int, e.1.secret@))
            } else {
                Option::<(int, Seq<char>)>::None
            }),
    decreases s.len(),
{
    if s.len() == 0 {
        assert(s.push(e).drop_first() =~= s);
        assert forall|x: int|
            find_entry(s.push(e), x) == (if find_entry(s, x) is Some {
                find_entry(s, x)
            } else if e.0 == x {
                Option::Some((e.1.expires as int, e.1.secret@))
            } else {
                Option::<(int, Seq<char>)>::None
            }) by {
            assert(s.push(e).first() == e);
        }
    } else {
        assert(s.push(e).drop_first() =~= s.drop_first().push(e));
        lemma_find_push(s.drop_first(), e);
        assert forall|x: int|
            find_entry(s.push(e), x) == (if find_entry(s, x) is Some {
                find_entry(s, x)
            } else if e.0 == x {
                Option::Some((e.1.expires as int, e.1.secret@))
            } else {
                Option::<(int, Seq<char>)>::None
            }) by {
            assert(find_entry(s.drop_first().push(e), x) == (if find_entry(s.drop_first(), x)
                is Some {
                find_entry(s.drop_first(), x)
            } else if e.0 == x {
                Option::Some((e.1.expires as int, e.1.secret@))
            } else {
                Option::<(int, Seq<char>)>::None
            }));
        }
    }
}

/// An id on no entry is not found.
proof fn lemma_find_none(s: Seq<(i32, AuthKey)>, x: int)
    requires
        forall|k: int| 0 <= k < s.len() ==> (#[trigger] s[k]).0 != x,
    ensures
        find_entry(s, x) is None,
    decreases s.len(),
{
    if s.len() > 0 {
        assert forall|k: int| 0 <= k < s.drop_first().len() implies (#[trigger] s.drop_first()[k]).0
            != x by {
            assert(s.drop_first()[k] == s[k + 1]);
        }
        lemma_find_none(s.drop_first(), x);
    }
}

/// The first matching index determines the entry found.
proof fn lemma_find_at(s: Seq<(i32, AuthKey)>, x: int, j: int)
    requires
        0 <= j < s.len(),
        forall|k: int| 0 <= k < j ==> (#[trigger] s[k]).0 != x,
        s[j].0 == x,
    ensures
        find_entry(s, x) == Option::Some((s[j].1.expires as int, s[j].1.secret@)),
    decreases j,
{
    if j > 0 {
        assert forall|k: int| 0 <= k < j - 1 implies (#[trigger] s.drop_first()[k]).0 != x by {
            assert(s.drop_first()[k] == s[k + 1]);
        }
        assert(s.drop_first()[j - 1] == s[j]);
        lemma_find_at(s.drop_first(), x, j - 1);
    }
}

/// An id that appears on some entry is found.
proof fn lemma_find_some(s: Seq<(i32, AuthKey)>, j: int)
    requires
        0 <= j < s.len(),
    ensures
        find_entry(s, s[j].0 as int) is Some,
    decreases j,
{
    if s.first().0 != s[j].0 {
        assert(s.drop_first()[j - 1] == s[j]);
        lemma_find_some(s.drop_first(), j - 1);
    }
}

/// A verified in-memory session store: a list of keyed entries with unique
/// ids.
pub struct SessionStore {
    entries: Vec<(i32, AuthKey)>,
}

/// The entries with `id` dropped; keeps every other entry, in order.
fn retain_other(entries: Vec<(i32, AuthKey)>, id: i32) -> (r: Vec<(i32, AuthKey)>)
    requires
        ids_unique(entries@),
    ensures
        forall|x: int| #[trigger]
            find_entry(r@, x) == (if x == id as int {
                Option::<(int, Seq<char>)>::None
            } else {
                find_entry(entries@, x)
            }),
        ids_unique(r@),
        forall|k: int| 0 <= k < r@.len() ==> (#[trigger] r@[k]).0 != id,
{
    let ghost full = entries@;
    let mut rest = entries;
    proof {
        assert(full.len() <= usize::MAX) by {
            assert(vstd::std_specs::vec::spec_vec_len(&rest) == rest@.len());
        }
    }
    let mut out: Vec<(i32, AuthKey)> = Vec::new();
    let mut i: usize = 0;
    while rest.len() > 0
        invariant
            full.len() <= usize::MAX,
            i + rest@.len() == full.len(),
            rest@ == full.skip(i as int),
            ids_unique(full),
            ids_unique(out@),
            forall|k: int| 0 <= k < out@.len() ==> (#[trigger] out@[k]).0 != id,
            forall|x: int| #[trigger]
                find_entry(out@, x) == (if x == id as int {
                    Option::<(int, Seq<char>)>::None
                } else {
                    find_entry(full.take(i as int), x)
                }),
            forall|x: int|
                find_entry(out@, x) is Some ==> exists|k: int|
                    0 <= k < i && (#[trigger] full[k]).0 == x,
        decreases rest@.len(),
    {
        let e = rest.remove(0);
        proof {
            assert(full.skip(i as int).remove(0) =~= full.skip(i + 1));
            assert(e == full[i as int]);
            lemma_find_push(out@, full[i as int]);
            lemma_find_push(full.take(i as int), full[i as int]);
            assert(full.take(i as int).push(full[i as int]) =~= full.take(i + 1));
        }
        let ghost prev = out@;
        if e.0 != id {
            proof {
                assert(find_entry(prev, e.0 as int) is None) by {
                    if find_entry(prev, e.0 as int) is Some {
                        let k = choose|k: int|
                            0 <= k < i && (#[trigger] full[k]).0 == e.0 as int;
                        assert(full[k].0 != full[i as int].0);
                    }
                }
            }
            out.push(e);
            proof {
                assert forall|a: int, b: int| 0 <= a < b < out@.len() implies (#[trigger] out@[a]).0
                    != (#[trigger] out@[b]).0 by {
                    if b == out@.len() - 1 {
                        assert(out@[a] == prev[a]);
                        lemma_find_some(prev, a);
                        let k = choose|k: int|
                            0 <= k < i && (#[trigger] full[k]).0 == prev[a].0 as int;
                        assert(full[k].0 != full[i as int].0);
                    } else {
                        assert(out@[a] == prev[a] && out@[b] == prev[b]);
                    }
                }
            }
        }
        i = i + 1;
    }
    proof {
        assert(full.take(full.len() as int) =~= full);
    }
    out
}

impl SessionStore {
    #[verifier::type_invariant]
    spec fn wf(&self) -> bool {
        ids_unique(self.entries@)
    }

    /// An empty store.
    pub fn new() -> (r: SessionStore)
        ensures
            r.session_entries() == Map::<int, (int, Seq<char>)>::empty(),
    {
        let r = SessionStore { entries: Vec::new() };
        proof {
            assert(r.session_entries() =~= Map::<int, (int, Seq<char>)>::empty());
        }
        r
    }
}

impl SessionManager for SessionStore {
    closed spec fn session_entries(&self) -> Map<int, (int, Seq<char>)> {
        entries_map(self.entries@)
    }

    fn insert(&mut self, id: i32, key: String) {
        let t = now();
        let expires = if t <= i64::MAX - DEFAULT_KEY_LIFETIME {
            t + DEFAULT_KEY_LIFETIME
        } else {
            i64::MAX
        };
        self.insert_for(id, key, expires);
        proof {
            assert(self.session_entries() == old(self).session_entries().insert(
                id as int,
                (expires as int, key@),
            ));
        }
    }

    fn insert_for(&mut self, id: i32, key: String, expires: i64) {
        let ghost before = self.entries@;
        proof {
            use_type_invariant(&*self);
        }
        let mut taken: Vec<(i32, AuthKey)> = Vec::new();
        core::mem::swap(&mut self.entries, &mut taken);
        let mut kept = retain_other(taken, id);
        let ghost filtered = kept@;
        proof {
            lemma_find_push(filtered, (id, AuthKey { expires, secret: key }));
        }
        kept.push((id, AuthKey { expires, secret: key }));
        proof {
            assert forall|i: int, j: int| 0 <= i < j < kept@.len() implies (#[trigger] kept@[i]).0
                != (#[trigger] kept@[j]).0 by {
                if j == kept@.len() - 1 {
                    assert(kept@[i] == filtered[i]);
                }
            }
        }
        *self = SessionStore { entries: kept };
        proof {
            assert(self.session_entries() =~= entries_map(before).insert(
                id as int,
                (expires as int, key@),
            ));
        }
    }

    fn remove(&mut self, id: i32) {
        let ghost before = self.entries@;
        proof {
            use_type_invariant(&*self);
        }
        let mut taken: Vec<(i32, AuthKey)> = Vec::new();
        core::mem::swap(&mut self.entries, &mut taken);
        let kept = retain_other(taken, id);
        *self = SessionStore { entries: kept };
        proof {
            assert(self.session_entries() =~= entries_map(before).remove(id as int));
        }
    }

    fn get(&self, id: i32) -> (r: Option<String>) {
        let s = &self.entries;
        let mut i: usize = 0;
        while i < s.len()
            invariant
                s@ == self.entries@,
                i <= s@.len(),
                forall|k: int| 0 <= k < i ==> (#[trigger] s@[k]).0 != id,
            decreases s@.len() - i,
        {
            if s[i].0 == id {
                proof {
                    lemma_find_at(s@, id as int, i as int);
                }
                return Some(s[i].1.secret.clone());
            }
            i = i + 1;
        }
        proof {
            lemma_find_none(s@, id as int);
        }
        None
    }

    fn clear_all(&mut self) {
        *self = SessionStore { entries: Vec::new() };
        proof {
            assert(self.session_entries() =~= Map::<int, (int, Seq<char>)>::empty());
        }
    }

    fn clear_expired_at(&mut self, time: i64) {
        let ghost full = self.entries@;
        proof {
            use_type_invariant(&*self);
        }
        let mut rest: Vec<(i32, AuthKey)> = Vec::new();
        core::mem::swap(&mut self.entries, &mut rest);
        proof {
            assert(full.len() <= usize::MAX) by {
                assert(vstd::std_specs::vec::spec_vec_len(&rest) == rest@.len());
            }
        }
        let mut out: Vec<(i32, AuthKey)> = Vec::new();
        let mut i: usize = 0;
        while rest.len() > 0
            invariant
                full.len() <= usize::MAX,
                i + rest@.len() == full.len(),
                rest@ == full.skip(i as int),
                ids_unique(full),
                ids_unique(out@),
                forall|x: int| #[trigger]
                    find_entry(out@, x) == (if find_entry(full.take(i as int), x) is Some
                        && find_entry(full.take(i as int), x).unwrap().0 > time as int {
                        find_entry(full.take(i as int), x)
                    } else {
                        Option::<(int, Seq<char>)>::None
                    }),
                forall|x: int|
                    find_entry(out@, x) is Some ==> exists|k: int|
                        0 <= k < i && (#[trigger] full[k]).0 == x,
            decreases rest@.len(),
        {
            let e = rest.remove(0);
            let ghost prev = out@;
            proof {
                assert(full.skip(i as int).remove(0) =~= full.skip(i + 1));
                assert(e == full[i as int]);
                lemma_find_push(out@, full[i as int]);
                lemma_find_push(full.take(i as int), full[i as int]);
                assert(full.take(i as int).push(full[i as int]) =~= full.take(i + 1));
                assert forall|k: int|
                    0 <= k < full.take(i as int).len() implies (#[trigger] full.take(
                    i as int,
                )[k]).0 != e.0 by {
                    assert(full.take(i as int)[k] == full[k]);
                    assert(full[k].0 != full[i as int].0);
                }
                lemma_find_none(full.take(i as int), e.0 as int);
            }
            if e.1.expires > time {
                out.push(e);
                proof {
                    assert forall|a: int, b: int|
                        0 <= a < b < out@.len() implies (#[trigger] out@[a]).0 != (
                    #[trigger] out@[b]).0 by {
                        if b == out@.len() - 1 {
                            assert(out@[a] == prev[a]);
                            lemma_find_some(prev, a);
                            let k = choose|k: int|
                                0 <= k < i && (#[trigger] full[k]).0 == prev[a].0 as int;
                            assert(full[k].0 != full[i as int].0);
                        } else {
                            assert(out@[a] == prev[a] && out@[b] == prev[b]);
                        }
                    }
                }
            }
            i = i + 1;
        }
        *self = SessionStore { entries: out };
        proof {
            assert(full.take(full.len() as int) =~= full);
            assert(self.session_entries() =~= live_sessions(entries_map(full), time as int));
        }
    }

    fn clear_expired(&mut self) {
        let t = now();
        self.clear_expired_at(t);
        proof {
            assert(self.session_entries() == live_sessions(
                old(self).session_entries(),
                t as int,
            ));
        }
    }
}

} // verus!
