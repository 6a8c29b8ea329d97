//! The record store: an in-memory cache of every live record, kept in step
//! with the durable table on every mutation, swept lazily of expired records,
//! and gating every destructive operation by the access-control rules.
//!
//! One store value owns both the cache and the database connection, so Rust's
//! exclusive borrows serialize all access: callers that share a store across
//! tasks wrap it in one process-wide mutual-exclusion lock and hold that lock
//! for a whole operation, durable writes included.

use vstd::prelude::*;
use vstd::seq_lib::group_seq_properties;
use crate::access::{spec_view_needs_auth, spec_decide_delete, DeleteDecision, view_needs_auth, decide_delete};
use crate::codec::{Strategy, spec_token, encode, decode};
use crate::db;
use crate::db::{db_view, records_map, empty_rows, loaded_records};
use crate::pasta::{Pasta, RowV, spec_row_of, represents_row, lemma_row_of_represents};

verus! {

broadcast use group_seq_properties;

/// An error of the record store.
#[derive(Clone, Copy, PartialEq, Eq, Structural, Debug)]
pub enum StoreError {
    /// A record with the same id is already live.
    DuplicateId,
    /// The durable store failed a statement. The store stays well formed
    /// and the cache has at most been partially swept — only expired records
    /// have left it; the attempted change itself did not happen in the cache.
    Storage,
}

/// What one lookup decides.
#[derive(Debug)]
pub enum FindOutcome {
    /// The record is live and may be viewed; here is a copy.
    Found(Pasta),
    /// The record is live but gated, and no secret was supplied: prompt.
    NeedsAuth,
    /// No live record has this token.
    NotFound,
}

/// What one removal attempt decides.
#[derive(Debug)]
pub enum RemoveOutcome {
    /// The record was removed from cache and durable store; here it is, so
    /// the caller can clean up its attachment bytes best-effort.
    Deleted(Pasta),
    /// The record is gated and no input was supplied: prompt.
    NeedsAuth,
    /// The record is gated and the input does not match the confirmation
    /// phrase: prompt again.
    AuthMismatch,
    /// No live record has this token.
    NotFound,
}

/// What the authorization page needs of one record.
#[derive(Debug)]
pub struct AuthView {
    /// The record's wrapped key material, or empty when it has none.
    pub encrypted_key: String,
    /// Whether the record is client-side encrypted.
    pub encrypt_client: bool,
}

/// A well-formed cache: well-formed records, no id twice, and creation times
/// ascending.
pub open spec fn wf_cache(s: Seq<Pasta>) -> bool {
    &&& forall|i: int| 0 <= i < s.len() ==> (#[trigger] s[i]).wf()
    &&& forall|i: int, j: int| 0 <= i < j < s.len() ==> s[i].id != s[j].id
    &&& forall|i: int, j: int|
        0 <= i <= j < s.len() ==> #[trigger] s[i].created <= #[trigger] s[j].created
}

/// The cache and the durable table hold the same records: every cached record
/// stands for the held row under its id, and every held id is cached.
pub open spec fn synced(m: Map<i64, RowV>, s: Seq<Pasta>) -> bool {
    &&& forall|i: int|
        0 <= i < s.len() ==> m.dom().contains(#[trigger] s[i].id as i64) && represents_row(
            m[s[i].id as i64],
            s[i],
        )
    &&& forall|k: i64|
        #[trigger] m.dom().contains(k) ==> exists|i: int|
            0 <= i < s.len() && #[trigger] s[i].id as i64 == k
}

/// The records of `s` that have not expired by `now`, in order.
pub open spec fn live(s: Seq<Pasta>, now: i64) -> Seq<Pasta> {
    s.filter(|p: Pasta| !p.spec_expired(now))
}

/// Whether a held row image has expired by `now`.
pub open spec fn row_expired(rv: RowV, now: i64) -> bool {
    rv.expiration != 0 && rv.expiration <= now
}

/// No record of `s` has expired by `now`.
pub open spec fn all_live(s: Seq<Pasta>, now: i64) -> bool {
    forall|i: int| 0 <= i < s.len() ==> !(#[trigger] s[i]).spec_expired(now)
}

/// A partially swept cache: for some prefix of the old cache the expired
/// records are gone, the rest stands untouched — records only leave by
/// expiring, none is added or changed, and the order of the rest is kept.
pub open spec fn sweep_prefix(s0: Seq<Pasta>, s: Seq<Pasta>, now: i64) -> bool {
    exists|j: int|
        0 <= j <= s0.len() && s == live(#[trigger] s0.subrange(0, j), now) + s0.subrange(
            j,
            s0.len() as int,
        )
}

/// Sweeping a cache with nothing expired leaves it as it was.
proof fn lemma_all_live_filter(s: Seq<Pasta>, now: i64)
    requires
        all_live(s, now),
    ensures
        live(s, now) == s,
    decreases s.len(),
{
    reveal(Seq::filter);
    if s.len() > 0 {
        assert(all_live(s.drop_last(), now));
        lemma_all_live_filter(s.drop_last(), now);
        assert(live(s, now) =~= s);
    } else {
        assert(live(s, now) =~= s);
    }
}

/// A fully swept cache is one shape of a partial sweep: the whole prefix.
proof fn lemma_swept_sweep_prefix(s0: Seq<Pasta>, now: i64)
    ensures
        sweep_prefix(s0, live(s0, now), now),
{
    let j = s0.len() as int;
    assert(s0.subrange(0, j) =~= s0);
    assert(s0.subrange(j, j) =~= Seq::<Pasta>::empty());
    assert(live(s0, now) =~= live(s0.subrange(0, j), now) + s0.subrange(j, j));
    assert(sweep_prefix(s0, live(s0, now), now));
}

/// Whether the cached record at `i` carries this token.
pub open spec fn token_at(st: Strategy, s: Seq<Pasta>, i: int, t: Seq<char>) -> bool {
    spec_token(st, s[i].id) == t
}

/// Distinct 64-bit ids stay distinct as signed row keys.
proof fn lemma_key_inj(a: u64, b: u64)
    ensures
        a as i64 == b as i64 ==> a == b,
{
    assert(a as i64 == b as i64 ==> a == b) by (bit_vector);
}

/// A well-formed cache stays well formed when one record leaves.
proof fn lemma_wf_cache_remove(s: Seq<Pasta>, i: int)
    requires
        wf_cache(s),
        0 <= i < s.len(),
    ensures
        wf_cache(s.remove(i)),
{
    let s2 = s.remove(i);
    assert forall|l: int| 0 <= l < s2.len() implies (#[trigger] s2[l]).wf() by {
        if l < i {
            assert(s2[l] == s[l]);
        } else {
            assert(s2[l] == s[l + 1]);
        }
    }
    assert forall|a: int, b: int| 0 <= a < b < s2.len() implies s2[a].id != s2[b].id by {
        let a0: int = if a < i { a } else { a + 1 };
        let b0: int = if b < i { b } else { b + 1 };
        assert(s2[a] == s[a0] && s2[b] == s[b0]);
    }
    assert forall|a: int, b: int| 0 <= a <= b < s2.len() implies #[trigger] s2[a].created
        <= #[trigger] s2[b].created by {
        let a0: int = if a < i { a } else { a + 1 };
        let b0: int = if b < i { b } else { b + 1 };
        assert(s2[a] == s[a0] && s2[b] == s[b0]);
    }
}

/// A well-formed cache stays well formed when a fresh record enters at its
/// sorted position.
proof fn lemma_wf_cache_insert(s: Seq<Pasta>, pos: int, p: Pasta)
    requires
        wf_cache(s),
        p.wf(),
        0 <= pos <= s.len(),
        forall|l: int| 0 <= l < s.len() ==> (#[trigger] s[l]).id != p.id,
        forall|l: int| 0 <= l < pos ==> (#[trigger] s[l]).created <= p.created,
        forall|l: int| pos <= l < s.len() ==> p.created <= (#[trigger] s[l]).created,
    ensures
        wf_cache(s.insert(pos, p)),
{
    let s2 = s.insert(pos, p);
    assert forall|l: int| 0 <= l < s2.len() implies (#[trigger] s2[l]).wf() by {
        if l != pos {
            let l0: int = if l < pos { l } else { l - 1 };
            assert(s2[l] == s[l0]);
        }
    }
    assert forall|a: int, b: int| 0 <= a < b < s2.len() implies s2[a].id != s2[b].id by {
        if a != pos && b != pos {
            let a0: int = if a < pos { a } else { a - 1 };
            let b0: int = if b < pos { b } else { b - 1 };
            assert(s2[a] == s[a0] && s2[b] == s[b0]);
        }
    }
    assert forall|a: int, b: int| 0 <= a <= b < s2.len() implies #[trigger] s2[a].created
        <= #[trigger] s2[b].created by {
        if a != pos && b != pos {
            let a0: int = if a < pos { a } else { a - 1 };
            let b0: int = if b < pos { b } else { b - 1 };
            assert(s2[a] == s[a0] && s2[b] == s[b0]);
        } else if a == pos && b != pos {
            assert(s2[b] == s[b - 1]);
        } else if a != pos && b == pos {
            assert(s2[a] == s[a]);
        }
    }
}

/// A well-formed cache stays well formed when one record is replaced by a
/// well-formed record with the same id and creation time.
proof fn lemma_wf_cache_set(s: Seq<Pasta>, i: int, p: Pasta)
    requires
        wf_cache(s),
        p.wf(),
        0 <= i < s.len(),
        s[i].id == p.id,
        s[i].created == p.created,
    ensures
        wf_cache(s.update(i, p)),
{
}

/// Removing one record from both sides keeps cache and table in step.
proof fn lemma_synced_remove(m: Map<i64, RowV>, s: Seq<Pasta>, i: int)
    requires
        synced(m, s),
        forall|a: int, b: int| 0 <= a < b < s.len() ==> s[a].id != s[b].id,
        0 <= i < s.len(),
    ensures
        synced(m.remove(s[i].id as i64), s.remove(i)),
{
    let key = s[i].id as i64;
    let m2 = m.remove(key);
    let s2 = s.remove(i);
    assert forall|l: int| 0 <= l < s2.len() implies m2.dom().contains(#[trigger] s2[l].id as i64)
        && represents_row(m2[s2[l].id as i64], s2[l]) by {
        let l0: int = if l < i {
            l
        } else {
            l + 1
        };
        assert(s2[l] == s[l0]);
        lemma_key_inj(s[l0].id, s[i].id);
    }
    assert forall|k: i64| #[trigger] m2.dom().contains(k) implies exists|l: int|
        0 <= l < s2.len() && #[trigger] s2[l].id as i64 == k by {
        let w = choose|w: int| 0 <= w < s.len() && #[trigger] s[w].id as i64 == k;
        if w < i {
            assert(s2[w].id as i64 == k);
        } else {
            assert(w != i);
            assert(s2[w - 1].id as i64 == k);
        }
    }
}

/// Inserting one record on both sides keeps cache and table in step.
proof fn lemma_synced_insert(m: Map<i64, RowV>, s: Seq<Pasta>, pos: int, p: Pasta)
    requires
        synced(m, s),
        0 <= pos <= s.len(),
        forall|l: int| 0 <= l < s.len() ==> (#[trigger] s[l]).id != p.id,
        represents_row(spec_row_of(p), p),
    ensures
        synced(m.insert(p.id as i64, spec_row_of(p)), s.insert(pos, p)),
{
    let key = p.id as i64;
    let m2 = m.insert(key, spec_row_of(p));
    let s2 = s.insert(pos, p);
    assert forall|l: int| 0 <= l < s2.len() implies m2.dom().contains(#[trigger] s2[l].id as i64)
        && represents_row(m2[s2[l].id as i64], s2[l]) by {
        if l == pos {
            assert(s2[l] == p);
        } else {
            let l0: int = if l < pos {
                l
            } else {
                l - 1
            };
            assert(s2[l] == s[l0]);
            lemma_key_inj(s[l0].id, p.id);
        }
    }
    assert forall|k: i64| #[trigger] m2.dom().contains(k) implies exists|l: int|
        0 <= l < s2.len() && #[trigger] s2[l].id as i64 == k by {
        if k == key {
            assert(s2[pos].id as i64 == k);
        } else {
            let w = choose|w: int| 0 <= w < s.len() && #[trigger] s[w].id as i64 == k;
            if w < pos {
                assert(s2[w].id as i64 == k);
            } else {
                assert(s2[w + 1].id as i64 == k);
            }
        }
    }
}

/// Replacing the record of one id on both sides keeps cache and table in
/// step.
proof fn lemma_synced_set(m: Map<i64, RowV>, s: Seq<Pasta>, i: int, p: Pasta)
    requires
        synced(m, s),
        forall|a: int, b: int| 0 <= a < b < s.len() ==> s[a].id != s[b].id,
        0 <= i < s.len(),
        s[i].id == p.id,
        represents_row(spec_row_of(p), p),
    ensures
        synced(m.insert(p.id as i64, spec_row_of(p)), s.update(i, p)),
{
    let key = p.id as i64;
    let m2 = m.insert(key, spec_row_of(p));
    let s2 = s.update(i, p);
    assert forall|l: int| 0 <= l < s2.len() implies m2.dom().contains(#[trigger] s2[l].id as i64)
        && represents_row(m2[s2[l].id as i64], s2[l]) by {
        if l != i {
            assert(s2[l] == s[l]);
            lemma_key_inj(s[l].id, p.id);
        }
    }
    assert forall|k: i64| #[trigger] m2.dom().contains(k) implies exists|l: int|
        0 <= l < s2.len() && #[trigger] s2[l].id as i64 == k by {
        if k == key {
            assert(s2[i].id as i64 == k);
        } else {
            let w = choose|w: int| 0 <= w < s.len() && #[trigger] s[w].id as i64 == k;
            assert(w != i);
            assert(s2[w].id as i64 == k);
        }
    }
}

/// A freshly rewritten table holds exactly the cache it was written from.
proof fn lemma_records_map_synced(s: Seq<Pasta>)
    requires
        forall|i: int| 0 <= i < s.len() ==> (#[trigger] s[i]).wf(),
        forall|a: int, b: int| 0 <= a < b < s.len() ==> s[a].id != s[b].id,
    ensures
        synced(records_map(s), s),
    decreases s.len(),
{
    if s.len() > 0 {
        let head = s.drop_last();
        let p = s.last();
        lemma_records_map_synced(head);
        let m = records_map(head).insert(p.id as i64, spec_row_of(p));
        assert forall|l: int| 0 <= l < s.len() implies m.dom().contains(#[trigger] s[l].id as i64)
            && represents_row(m[s[l].id as i64], s[l]) by {
            if l == s.len() - 1 {
                lemma_row_of_represents(p);
            } else {
                assert(head[l] == s[l]);
                lemma_key_inj(s[l].id, p.id);
            }
        }
        assert forall|k: i64| #[trigger] m.dom().contains(k) implies exists|l: int|
            0 <= l < s.len() && #[trigger] s[l].id as i64 == k by {
            if k == p.id as i64 {
                assert(s[s.len() - 1].id as i64 == k);
            } else {
                let w = choose|w: int| 0 <= w < head.len() && #[trigger] head[w].id as i64 == k;
                assert(s[w].id as i64 == k);
            }
        }
        assert(records_map(s) == m);
    }
}

/// The record store: the cache, the durable connection it mirrors, and the
/// token strategy fixed at startup.
pub struct Store {
    conn: rusqlite::Connection,
    pastas: Vec<Pasta>,
    strategy: Strategy,
}

impl Store {
    /// The live records, in creation order.
    pub closed spec fn cache(self) -> Seq<Pasta> {
        self.pastas@
    }

    /// What the durable table holds, keyed by row id.
    pub closed spec fn table(self) -> Map<i64, RowV> {
        db_view(self.conn)
    }

    /// The token strategy this store was opened with.
    pub closed spec fn strat(self) -> Strategy {
        self.strategy
    }

    /// The store's invariant: a well-formed cache that holds exactly what the
    /// durable table holds.
    pub open spec fn wf(self) -> bool {
        &&& wf_cache(self.cache())
        &&& synced(self.table(), self.cache())
    }

    /// Builds a store over an opened database connection, loading every
    /// record: the cache starts as exactly the durable record set, sorted by
    /// creation time.
    pub fn attach(conn: rusqlite::Connection, strategy: Strategy) -> (r: Result<Store, StoreError>)
        ensures
            r matches Ok(st) ==> {
                &&& st.wf()
                &&& st.strat() == strategy
                &&& st.table() == db_view(conn)
                &&& loaded_records(st.table(), st.cache())
            },
    {
        let mut conn = conn;
        let pastas = match db::read_all(&mut conn) {
            Ok(ps) => ps,
            Err(_) => {
                return Err(StoreError::Storage);
            },
        };
        Ok(Store { conn, pastas, strategy })
    }

    /// Opens the database file at `path` and loads every record.
    pub fn open_path(path: &str, strategy: Strategy) -> (r: Result<Store, StoreError>)
        ensures
            r matches Ok(st) ==> {
                &&& st.wf()
                &&& st.strat() == strategy
                &&& loaded_records(st.table(), st.cache())
            },
    {
        match db::open_file_connection(path) {
            Ok(conn) => Store::attach(conn, strategy),
            Err(_) => Err(StoreError::Storage),
        }
    }

    /// Opens a fresh in-memory database: a store that starts empty, in cache
    /// and in table.
    pub fn open_in_memory(strategy: Strategy) -> (r: Result<Store, StoreError>)
        ensures
            r matches Ok(st) ==> {
                &&& st.wf()
                &&& st.strat() == strategy
                &&& st.cache() == Seq::<Pasta>::empty()
                &&& st.table() == empty_rows()
            },
    {
        match db::open_memory_connection() {
            Ok(conn) => {
                match Store::attach(conn, strategy) {
                    Ok(st) => {
                        proof {
                            if st.cache().len() > 0 {
                                assert(st.table().dom().contains(st.cache()[0].id as i64));
                            }
                            assert(st.cache() =~= Seq::<Pasta>::empty());
                        }
                        Ok(st)
                    },
                    Err(e) => Err(e),
                }
            },
            Err(_) => Err(StoreError::Storage),
        }
    }

    /// The public token of an identifier under this store's strategy.
    pub fn token_for(&self, id: u64) -> (s: String)
        ensures
            s@ == spec_token(self.strat(), id),
    {
        encode(self.strategy, id)
    }

    /// Evicts every record whose expiration is non-zero and has passed, from
    /// the cache and from the durable table, keeping the rest in order; the
    /// evicted records are returned so the caller can clean up attachment
    /// bytes. A cache with nothing expired cannot fail: no statement runs.
    /// On a storage error the sweep stops early: some prefix is swept, only
    /// expired records have left, and the store is still well formed.
    pub fn remove_expired(&mut self, now: i64) -> (r: Result<Vec<Pasta>, StoreError>)
        requires
            old(self).wf(),
        ensures
            final(self).wf(),
            final(self).strat() == old(self).strat(),
            all_live(old(self).cache(), now) ==> r is Ok,
            r is Ok ==> final(self).cache() == live(old(self).cache(), now),
            r is Ok ==> forall|k: i64|
                #[trigger] final(self).table().dom().contains(k) ==> !row_expired(
                    final(self).table()[k],
                    now,
                ),
            r is Err ==> sweep_prefix(old(self).cache(), final(self).cache(), now),
    {
        let ghost orig = self.pastas@;
        let ghost cl = |p: Pasta| !p.spec_expired(now);
        let mut evicted: Vec<Pasta> = Vec::new();
        let mut i: usize = 0;
        let ghost mut j: int = 0;
        proof {
            assert(orig.subrange(0, 0) =~= Seq::<Pasta>::empty());
            assert(orig.subrange(0, 0).filter(cl) =~= Seq::<Pasta>::empty());
            assert(self.pastas@ =~= orig.subrange(0, 0).filter(cl) + orig.subrange(
                0,
                orig.len() as int,
            ));
        }
        while i < self.pastas.len()
            invariant
                cl == (|p: Pasta| !p.spec_expired(now)),
                orig == old(self).cache(),
                0 <= j <= orig.len(),
                i == orig.subrange(0, j).filter(cl).len(),
                self.pastas@ =~= orig.subrange(0, j).filter(cl) + orig.subrange(
                    j,
                    orig.len() as int,
                ),
                wf_cache(self.pastas@),
                synced(db_view(self.conn), self.pastas@),
                self.strategy == old(self).strategy,
            decreases self.pastas@.len() - i,
        {
            proof {
                assert(orig.subrange(0, j).filter(cl).len() <= orig.subrange(0, j).len()) by {
                    orig.subrange(0, j).lemma_filter_len(cl);
                }
                assert(j < orig.len());
                assert(self.pastas@[i as int] == orig.subrange(j, orig.len() as int)[0]);
                assert(self.pastas@[i as int] == orig[j]);
            }
            let expired = self.pastas[i].is_expired(now);
            proof {
                let pre = orig.subrange(0, j + 1);
                assert(pre.drop_last() =~= orig.subrange(0, j));
                assert(pre =~= orig.subrange(0, j).push(orig[j]));
                Seq::lemma_filter_push(orig.subrange(0, j), orig[j], cl);
            }
            if expired {
                let id = self.pastas[i].id;
                let ghost db0 = db_view(self.conn);
                let ghost cache0 = self.pastas@;
                if db::delete_by_id(&mut self.conn, id).is_err() {
                    proof {
                        assert(orig[j].spec_expired(now));
                        assert(!all_live(orig, now));
                        assert(self.pastas@ == live(orig.subrange(0, j), now) + orig.subrange(
                            j,
                            orig.len() as int,
                        ));
                        assert(sweep_prefix(orig, self.pastas@, now));
                    }
                    return Err(StoreError::Storage);
                }
                proof {
                    assert(id == cache0[i as int].id);
                    lemma_synced_remove(db0, cache0, i as int);
                    lemma_wf_cache_remove(cache0, i as int);
                }
                let p = self.pastas.remove(i);
                proof {
                    assert(self.pastas@ == cache0.remove(i as int));
                    let a = orig.subrange(0, j).filter(cl);
                    let b = orig.subrange(j, orig.len() as int);
                    assert(!cl(orig[j]));
                    assert(orig.subrange(0, j + 1).filter(cl) == a);
                    assert(cache0 == a + b);
                    assert(cache0.subrange(0, i as int) =~= a);
                    assert(cache0.subrange(i as int + 1, cache0.len() as int) =~= orig.subrange(
                        j + 1,
                        orig.len() as int,
                    ));
                    assert(self.pastas@ =~= orig.subrange(0, j + 1).filter(cl) + orig.subrange(
                        j + 1,
                        orig.len() as int,
                    ));
                    j = j + 1;
                }
                evicted.push(p);
            } else {
                i = i + 1;
                proof {
                    let a = orig.subrange(0, j).filter(cl);
                    let b = orig.subrange(j, orig.len() as int);
                    assert(cl(orig[j]));
                    assert(orig.subrange(0, j + 1).filter(cl) == a.push(orig[j]));
                    assert(b[0] == orig[j]);
                    assert(self.pastas@ == a + b);
                    assert(b.subrange(1, b.len() as int) =~= orig.subrange(j + 1, orig.len() as int));
                    assert(a + b =~= a.push(orig[j]) + orig.subrange(j + 1, orig.len() as int));
                    j = j + 1;
                }
            }
        }
        proof {
            assert(j == orig.len());
            assert(orig.subrange(0, orig.len() as int) =~= orig);
            assert(orig.subrange(orig.len() as int, orig.len() as int) =~= Seq::<Pasta>::empty());
            assert(self.pastas@ =~= orig.filter(cl));
            broadcast use Seq::lemma_filter_pred;

            assert forall|k: i64| #[trigger] db_view(self.conn).dom().contains(k) implies
                !row_expired(db_view(self.conn)[k], now) by {
                let w = choose|w: int|
                    0 <= w < self.pastas@.len() && #[trigger] self.pastas@[w].id as i64 == k;
                assert(cl(self.pastas@[w]));
            }
        }
        Ok(evicted)
    }

    /// The live (already swept) record set, in order: copies of every cached
    /// record.
    #[verifier::loop_isolation(false)]
    pub fn list(&mut self, now: i64) -> (r: Result<Vec<Pasta>, StoreError>)
        requires
            old(self).wf(),
        ensures
            final(self).wf(),
            final(self).strat() == old(self).strat(),
            all_live(old(self).cache(), now) ==> r is Ok,
            r matches Ok(v) ==> final(self).cache() == live(old(self).cache(), now) && v@
                == final(self).cache(),
            r matches Ok(v) ==> forall|i: int, j: int|
                0 <= i <= j < v@.len() ==> #[trigger] v@[i].created <= #[trigger] v@[j].created,
            r is Err ==> sweep_prefix(old(self).cache(), final(self).cache(), now),
    {
        if self.remove_expired(now).is_err() {
            return Err(StoreError::Storage);
        }
        let mut v: Vec<Pasta> = Vec::new();
        let mut i: usize = 0;
        while i < self.pastas.len()
            invariant
                0 <= i <= self.pastas@.len(),
                v@.len() == i,
                forall|l: int| 0 <= l < i ==> v@[l] == self.pastas@[l],
            decreases self.pastas@.len() - i,
        {
            v.push(self.pastas[i].clone());
            i = i + 1;
        }
        proof {
            assert(v@ =~= self.pastas@);
        }
        Ok(v)
    }

    /// Resolves a token to a live record: `Found` with a copy when the record
    /// is open to view or a secret accompanies the request, `NeedsAuth` when
    /// it is gated and no secret was supplied, `NotFound` when no live record
    /// carries the token — a garbage token or an expired record looks exactly
    /// like one that never existed.
    #[verifier::loop_isolation(false)]
    pub fn find_by_token(&mut self, token: &str, secret: &str, now: i64) -> (r: Result<
        FindOutcome,
        StoreError,
    >)
        requires
            old(self).wf(),
        ensures
            final(self).wf(),
            final(self).strat() == old(self).strat(),
            all_live(old(self).cache(), now) ==> r is Ok,
            r is Ok ==> final(self).cache() == live(old(self).cache(), now),
            r is Err ==> sweep_prefix(old(self).cache(), final(self).cache(), now),
            r matches Ok(out) ==> ({
                let c = live(old(self).cache(), now);
                let st = old(self).strat();
                &&& (out is NotFound <==> forall|i: int|
                    0 <= i < c.len() ==> !#[trigger] token_at(st, c, i, token@))
                &&& (out is Found <==> exists|i: int|
                    0 <= i < c.len() && #[trigger] token_at(st, c, i, token@) && (
                    !spec_view_needs_auth(c[i].spec_flags()) || secret@.len() > 0))
                &&& (out is NeedsAuth <==> exists|i: int|
                    0 <= i < c.len() && #[trigger] token_at(st, c, i, token@)
                        && spec_view_needs_auth(c[i].spec_flags()) && secret@.len() == 0)
                &&& (out matches FindOutcome::Found(p) ==> exists|i: int|
                    0 <= i < c.len() && c[i] == p && #[trigger] token_at(st, c, i, token@))
            }),
    {
        if self.remove_expired(now).is_err() {
            return Err(StoreError::Storage);
        }
        let ghost c = self.pastas@;
        let id = match decode(self.strategy, token) {
            Some(id) => id,
            None => {
                proof {
                    assert forall|i: int| 0 <= i < c.len() implies !#[trigger] token_at(
                        self.strategy,
                        c,
                        i,
                        token@,
                    ) by {}
                }
                return Ok(FindOutcome::NotFound);
            },
        };
        let mut i: usize = 0;
        while i < self.pastas.len()
            invariant
                0 <= i <= self.pastas@.len(),
                forall|l: int| 0 <= l < i ==> (#[trigger] self.pastas@[l]).id != id,
            decreases self.pastas@.len() - i,
        {
            if self.pastas[i].id == id {
                proof {
                    assert(token_at(self.strategy, c, i as int, token@));
                    assert forall|l: int|
                        0 <= l < c.len() && #[trigger] token_at(self.strategy, c, l, token@)
                        implies l == i as int by {
                        assert(c[l].id == id);
                    }
                }
                let gated = view_needs_auth(self.pastas[i].flags());
                if gated && secret.is_empty() {
                    return Ok(FindOutcome::NeedsAuth);
                }
                let p = self.pastas[i].clone();
                return Ok(FindOutcome::Found(p));
            }
            i = i + 1;
        }
        proof {
            assert forall|l: int| 0 <= l < c.len() implies !#[trigger] token_at(
                self.strategy,
                c,
                l,
                token@,
            ) by {
                if token_at(self.strategy, c, l, token@) {
                    assert(c[l].id == id);
                }
            }
        }
        Ok(FindOutcome::NotFound)
    }

    /// What the authorization page needs for the record with this token: its
    /// wrapped key material (empty when it has none) and whether it is
    /// client-side encrypted; `None` when no live record carries the token.
    #[verifier::loop_isolation(false)]
    pub fn lookup_auth(&mut self, token: &str, now: i64) -> (r: Result<Option<AuthView>, StoreError>)
        requires
            old(self).wf(),
        ensures
            final(self).wf(),
            final(self).strat() == old(self).strat(),
            all_live(old(self).cache(), now) ==> r is Ok,
            r is Ok ==> final(self).cache() == live(old(self).cache(), now),
            r is Err ==> sweep_prefix(old(self).cache(), final(self).cache(), now),
            r matches Ok(out) ==> ({
                let c = live(old(self).cache(), now);
                let st = old(self).strat();
                &&& (out is Some <==> exists|i: int|
                    0 <= i < c.len() && #[trigger] token_at(st, c, i, token@))
                &&& (out matches Some(av) ==> exists|i: int|
                    0 <= i < c.len() && #[trigger] token_at(st, c, i, token@) && av.encrypt_client
                        == c[i].encrypt_client && av.encrypted_key@ == (match c[i].encrypted_key {
                        Some(k) => k@,
                        None => Seq::<char>::empty(),
                    }))
            }),
    {
        if self.remove_expired(now).is_err() {
            return Err(StoreError::Storage);
        }
        let ghost c = self.pastas@;
        let id = match decode(self.strategy, token) {
            Some(id) => id,
            None => {
                proof {
                    assert forall|i: int| 0 <= i < c.len() implies !#[trigger] token_at(
                        self.strategy,
                        c,
                        i,
                        token@,
                    ) by {}
                }
                return Ok(None);
            },
        };
        let mut i: usize = 0;
        while i < self.pastas.len()
            invariant
                0 <= i <= self.pastas@.len(),
                forall|l: int| 0 <= l < i ==> (#[trigger] self.pastas@[l]).id != id,
            decreases self.pastas@.len() - i,
        {
            if self.pastas[i].id == id {
                proof {
                    assert(token_at(self.strategy, c, i as int, token@));
                }
                let key = match &self.pastas[i].encrypted_key {
                    Some(k) => k.clone(),
                    None => String::new(),
                };
                return Ok(Some(AuthView { encrypted_key: key, encrypt_client: self.pastas[i].encrypt_client }));
            }
            i = i + 1;
        }
        proof {
            assert forall|l: int| 0 <= l < c.len() implies !#[trigger] token_at(
                self.strategy,
                c,
                l,
                token@,
            ) by {
                if token_at(self.strategy, c, l, token@) {
                    assert(c[l].id == id);
                }
            }
        }
        Ok(None)
    }

    /// Inserts a new record, durably and in the cache at its place in
    /// creation order. An id already live is rejected as `DuplicateId` with
    /// nothing changed; a storage failure leaves the store well formed.
    #[verifier::loop_isolation(false)]
    pub fn submit(&mut self, p: Pasta, now: i64) -> (r: Result<(), StoreError>)
        requires
            old(self).wf(),
            p.wf(),
        ensures
            final(self).wf(),
            final(self).strat() == old(self).strat(),
            all_live(old(self).cache(), now) && (exists|i: int|
                0 <= i < old(self).cache().len() && (#[trigger] old(self).cache()[i]).id == p.id)
                ==> r == Err::<(), StoreError>(StoreError::DuplicateId),
            r is Err ==> sweep_prefix(old(self).cache(), final(self).cache(), now),
            ({
                let c = live(old(self).cache(), now);
                &&& (r != Err::<(), StoreError>(StoreError::Storage) ==> ((r == Err::<
                    (),
                    StoreError,
                >(StoreError::DuplicateId)) <==> exists|i: int|
                    0 <= i < c.len() && (#[trigger] c[i]).id == p.id))
                &&& r == Err::<(), StoreError>(StoreError::DuplicateId) ==> final(self).cache()
                    == c
                &&& r is Ok ==> exists|idx: int|
                    0 <= idx <= c.len() && final(self).cache() == #[trigger] c.insert(idx, p)
                &&& r is Ok ==> final(self).table().dom().contains(p.id as i64)
            }),
    {
        if self.remove_expired(now).is_err() {
            return Err(StoreError::Storage);
        }
        let ghost c = self.pastas@;
        let mut i: usize = 0;
        while i < self.pastas.len()
            invariant
                0 <= i <= self.pastas@.len(),
                forall|l: int| 0 <= l < i ==> (#[trigger] self.pastas@[l]).id != p.id,
            decreases self.pastas@.len() - i,
        {
            if self.pastas[i].id == p.id {
                proof {
                    lemma_swept_sweep_prefix(old(self).cache(), now);
                }
                return Err(StoreError::DuplicateId);
            }
            i = i + 1;
        }
        let mut pos: usize = 0;
        while pos < self.pastas.len() && self.pastas[pos].created <= p.created
            invariant
                0 <= pos <= self.pastas@.len(),
                forall|l: int| 0 <= l < pos ==> (#[trigger] self.pastas@[l]).created <= p.created,
            decreases self.pastas@.len() - pos,
        {
            pos = pos + 1;
        }
        let ghost db0 = db_view(self.conn);
        if db::insert(&mut self.conn, &p).is_err() {
            proof {
                lemma_swept_sweep_prefix(old(self).cache(), now);
                if all_live(old(self).cache(), now) {
                    lemma_all_live_filter(old(self).cache(), now);
                    assert(c == old(self).cache());
                }
            }
            return Err(StoreError::Storage);
        }
        proof {
            lemma_row_of_represents(p);
            lemma_synced_insert(db0, c, pos as int, p);
            lemma_wf_cache_insert(c, pos as int, p);
            if all_live(old(self).cache(), now) {
                lemma_all_live_filter(old(self).cache(), now);
                assert(c == old(self).cache());
            }
        }
        self.pastas.insert(pos, p);
        Ok(())
    }

    /// Replaces the live record that has this record's id. The stored
    /// creation time is kept — it is set once at creation — and everything
    /// else is taken from the given record. Returns whether a record with
    /// that id was live; a storage failure leaves the store well formed.
    #[verifier::loop_isolation(false)]
    pub fn update(&mut self, p: Pasta, now: i64) -> (r: Result<bool, StoreError>)
        requires
            old(self).wf(),
            p.wf(),
        ensures
            final(self).wf(),
            final(self).strat() == old(self).strat(),
            all_live(old(self).cache(), now) && !(exists|i: int|
                0 <= i < old(self).cache().len() && (#[trigger] old(self).cache()[i]).id == p.id)
                ==> r == Ok::<bool, StoreError>(false),
            r is Err ==> sweep_prefix(old(self).cache(), final(self).cache(), now),
            r matches Ok(found) ==> ({
                let c = live(old(self).cache(), now);
                &&& (found <==> exists|i: int| 0 <= i < c.len() && (#[trigger] c[i]).id == p.id)
                &&& !found ==> final(self).cache() == c
                &&& found ==> exists|i: int|
                    0 <= i < c.len() && (#[trigger] c[i]).id == p.id && final(self).cache()
                        == c.update(i, change_created(p, c[i].created))
            }),
    {
        if self.remove_expired(now).is_err() {
            return Err(StoreError::Storage);
        }
        let ghost c = self.pastas@;
        let ghost snap = *self;
        let mut i: usize = 0;
        while i < self.pastas.len()
            invariant
                *self == snap,
                0 <= i <= self.pastas@.len(),
                forall|l: int| 0 <= l < i ==> (#[trigger] self.pastas@[l]).id != p.id,
            decreases self.pastas@.len() - i,
        {
            if self.pastas[i].id == p.id {
                let created = self.pastas[i].created;
                let p2 = Pasta { created, ..p };
                let ghost db0 = db_view(self.conn);
                if db::update(&mut self.conn, &p2).is_err() {
                    proof {
                        lemma_swept_sweep_prefix(old(self).cache(), now);
                        if all_live(old(self).cache(), now) {
                            lemma_all_live_filter(old(self).cache(), now);
                            assert(old(self).cache()[i as int].id == p.id);
                        }
                    }
                    return Err(StoreError::Storage);
                }
                proof {
                    lemma_row_of_represents(p2);
                    lemma_synced_set(db0, c, i as int, p2);
                    lemma_wf_cache_set(c, i as int, p2);
                    assert(p2 == change_created(p, c[i as int].created));
                    if all_live(old(self).cache(), now) {
                        lemma_all_live_filter(old(self).cache(), now);
                        assert(old(self).cache()[i as int].id == p.id);
                    }
                }
                self.pastas.set(i, p2);
                return Ok(true);
            }
            i = i + 1;
        }
        Ok(false)
    }

    /// One removal attempt, gated by the access-control rules: an
    /// unrestricted record is deleted right away, whatever was supplied; a
    /// gated record is deleted only when the supplied input matches the
    /// localized confirmation phrase after trimming, prompts when nothing was
    /// supplied, and re-prompts on a mismatch. The deleted record is returned
    /// so the caller can clean up its attachment bytes best-effort.
    #[verifier::loop_isolation(false)]
    pub fn remove(&mut self, token: &str, supplied: &str, phrase: &str, now: i64) -> (r: Result<
        RemoveOutcome,
        StoreError,
    >)
        requires
            old(self).wf(),
        ensures
            final(self).wf(),
            final(self).strat() == old(self).strat(),
            all_live(old(self).cache(), now) && (forall|i: int|
                0 <= i < old(self).cache().len()
                    ==> !#[trigger] token_at(old(self).strat(), old(self).cache(), i, token@)
                    || spec_decide_delete(
                    old(self).cache()[i].spec_flags(),
                    supplied@,
                    phrase@,
                ) is AuthPrompt || spec_decide_delete(
                    old(self).cache()[i].spec_flags(),
                    supplied@,
                    phrase@,
                ) is ReAuthPrompt) ==> r is Ok,
            r is Err ==> sweep_prefix(old(self).cache(), final(self).cache(), now),
            r matches Ok(out) ==> ({
                let c = live(old(self).cache(), now);
                let st = old(self).strat();
                &&& (out is NotFound <==> forall|i: int|
                    0 <= i < c.len() ==> !#[trigger] token_at(st, c, i, token@))
                &&& out is NotFound ==> final(self).cache() == c
                &&& (out is Deleted <==> exists|i: int|
                    0 <= i < c.len() && #[trigger] token_at(st, c, i, token@) && (spec_decide_delete(
                        c[i].spec_flags(),
                        supplied@,
                        phrase@,
                    ) is Unrestricted || spec_decide_delete(
                        c[i].spec_flags(),
                        supplied@,
                        phrase@,
                    ) is Confirmed))
                &&& (out matches RemoveOutcome::Deleted(p) ==> exists|i: int|
                    0 <= i < c.len() && c[i] == p && #[trigger] token_at(st, c, i, token@) && final(self).cache() == c.remove(i) && !final(self).table().dom().contains(p.id as i64))
                &&& (out is NeedsAuth <==> exists|i: int|
                    0 <= i < c.len() && #[trigger] token_at(st, c, i, token@) && spec_decide_delete(
                        c[i].spec_flags(),
                        supplied@,
                        phrase@,
                    ) is AuthPrompt)
                &&& out is NeedsAuth ==> final(self).cache() == c
                &&& (out is AuthMismatch <==> exists|i: int|
                    0 <= i < c.len() && #[trigger] token_at(st, c, i, token@) && spec_decide_delete(
                        c[i].spec_flags(),
                        supplied@,
                        phrase@,
                    ) is ReAuthPrompt)
                &&& out is AuthMismatch ==> final(self).cache() == c
            }),
    {
        if self.remove_expired(now).is_err() {
            return Err(StoreError::Storage);
        }
        let ghost c = self.pastas@;
        let id = match decode(self.strategy, token) {
            Some(id) => id,
            None => {
                proof {
                    assert forall|i: int| 0 <= i < c.len() implies !#[trigger] token_at(
                        self.strategy,
                        c,
                        i,
                        token@,
                    ) by {}
                }
                return Ok(RemoveOutcome::NotFound);
            },
        };
        let ghost snap = *self;
        let mut i: usize = 0;
        while i < self.pastas.len()
            invariant
                *self == snap,
                0 <= i <= self.pastas@.len(),
                forall|l: int| 0 <= l < i ==> (#[trigger] self.pastas@[l]).id != id,
            decreases self.pastas@.len() - i,
        {
            if self.pastas[i].id == id {
                proof {
                    assert(token_at(self.strategy, c, i as int, token@));
                    assert forall|l: int|
                        0 <= l < c.len() && #[trigger] token_at(self.strategy, c, l, token@)
                        implies l == i as int by {
                        assert(c[l].id == id);
                    }
                }
                let decision = decide_delete(self.pastas[i].flags(), supplied, phrase);
                match decision {
                    DeleteDecision::Unrestricted | DeleteDecision::Confirmed => {
                        let ghost db0 = db_view(self.conn);
                        if db::delete_by_id(&mut self.conn, id).is_err() {
                            proof {
                                lemma_swept_sweep_prefix(old(self).cache(), now);
                                if all_live(old(self).cache(), now) {
                                    lemma_all_live_filter(old(self).cache(), now);
                                    assert(token_at(
                                        old(self).strat(),
                                        old(self).cache(),
                                        i as int,
                                        token@,
                                    ));
                                }
                            }
                            return Err(StoreError::Storage);
                        }
                        proof {
                            lemma_synced_remove(db0, c, i as int);
                            lemma_wf_cache_remove(c, i as int);
                        }
                        let p = self.pastas.remove(i);
                        return Ok(RemoveOutcome::Deleted(p));
                    },
                    DeleteDecision::AuthPrompt => {
                        return Ok(RemoveOutcome::NeedsAuth);
                    },
                    DeleteDecision::ReAuthPrompt => {
                        return Ok(RemoveOutcome::AuthMismatch);
                    },
                }
            }
            i = i + 1;
        }
        proof {
            assert forall|l: int| 0 <= l < c.len() implies !#[trigger] token_at(
                self.strategy,
                c,
                l,
                token@,
            ) by {
                if token_at(self.strategy, c, l, token@) {
                    assert(c[l].id == id);
                }
            }
        }
        Ok(RemoveOutcome::NotFound)
    }

    /// Rewrites the whole durable table from the live record set: drops it,
    /// recreates it and writes every record — the whole-set migration path,
    /// serialized behind the same exclusive access as every other mutation.
    /// A failed rewrite consumes the store: the durable set may be partial,
    /// so the caller must treat it as fatal and not carry a cache on.
    pub fn rewrite_all(self, now: i64) -> (r: Result<Store, StoreError>)
        requires
            self.wf(),
        ensures
            r matches Ok(st) ==> {
                &&& st.wf()
                &&& st.strat() == self.strat()
                &&& st.cache() == live(self.cache(), now)
                &&& st.table() == records_map(st.cache())
            },
    {
        let mut st = self;
        if st.remove_expired(now).is_err() {
            return Err(StoreError::Storage);
        }
        if db::update_all(&mut st.conn, &st.pastas).is_err() {
            return Err(StoreError::Storage);
        }
        proof {
            lemma_records_map_synced(st.pastas@);
        }
        Ok(st)
    }
}

/// No id is live twice: any two distinct cached records differ in id.
pub proof fn lemma_ids_unique(st: Store, i: int, j: int)
    requires
        st.wf(),
        0 <= i < j < st.cache().len(),
    ensures
        st.cache()[i].id != st.cache()[j].id,
{
}

/// The durable table never holds a record the cache does not: every held row
/// key is the id of some cached record.
pub proof fn lemma_table_matches_cache(st: Store, k: i64)
    requires
        st.wf(),
        st.table().dom().contains(k),
    ensures
        exists|i: int| 0 <= i < st.cache().len() && #[trigger] st.cache()[i].id as i64 == k,
{
}

/// The given record with its creation time replaced.
pub open spec fn change_created(p: Pasta, created: i64) -> Pasta {
    Pasta { created, ..p }
}

} // verus!
