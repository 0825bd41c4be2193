use vstd::prelude::*;

use crate::account::{account_of, empty_hash_spec, keccak256_of, AccountView};
use crate::cache_file::{loaded, slot_maps};
use crate::error::DatabaseError;
use crate::handler::lists_pairs;
use crate::model::{
    account_done_step, apply_pairs, basic_step, cached_slot, block_hash_done_step, block_hash_step, pin_step, remote_block,
    source_block, source_of, storage_done_step, storage_step, waiters_of, ActionView, HandlerView,
};
use crate::types::{Address, BlockId, B256, U256};

verus! {

/// Requests for the account at `a` from the listeners `ls`, served one
/// after another: the state after them, and the action each one gave.
pub open spec fn basic_all(s: HandlerView, a: Address, ls: Seq<u64>) -> (HandlerView, Seq<ActionView>)
    decreases ls.len(),
{
    if ls.len() == 0 {
        (s, Seq::empty())
    } else {
        let (s1, act) = basic_step(s, a, ls[0]);
        let (s2, acts) = basic_all(s1, a, ls.drop_first());
        (s2, Seq::empty().push(act) + acts)
    }
}

proof fn lemma_join_all(s: HandlerView, a: Address, ls: Seq<u64>)
    requires
        !s.accounts.contains_key(a),
        s.account_waiters.contains_key(a),
    ensures
        basic_all(s, a, ls).1.len() == ls.len(),
        forall|i: int| 0 <= i < ls.len() ==> basic_all(s, a, ls).1[i] == ActionView::Wait,
        basic_all(s, a, ls).0 == (HandlerView {
            account_waiters: s.account_waiters.insert(a, s.account_waiters[a] + ls),
            ..s
        }),
    decreases ls.len(),
{
    if ls.len() == 0 {
        assert(s.account_waiters[a] + ls =~= s.account_waiters[a]);
        assert(s.account_waiters.insert(a, s.account_waiters[a]) =~= s.account_waiters);
    } else {
        let s1 = basic_step(s, a, ls[0]).0;
        lemma_join_all(s1, a, ls.drop_first());
        assert(s1.account_waiters[a] + ls.drop_first() =~= s.account_waiters[a] + ls);
        assert(s1.account_waiters.insert(a, s1.account_waiters[a] + ls.drop_first())
            =~= s.account_waiters.insert(a, s.account_waiters[a] + ls));
        let acts = basic_all(s, a, ls).1;
        assert forall|i: int| 0 <= i < ls.len() implies acts[i] == ActionView::Wait by {
            if i > 0 {
                assert(acts[i] == basic_all(s1, a, ls.drop_first()).1[i - 1]);
            }
        }
    }
}

/// Concurrent lookups of one account coalesce: when two or more listeners
/// ask for an account that is neither cached nor being fetched, only the
/// first request starts a fetch (at the pinned block) and the others wait
/// on it; when that fetch lands, every one of the listeners, in the order
/// they asked, receives the same account, which is then cached.
pub proof fn lemma_coalescing(s: HandlerView, a: Address, ls: Seq<u64>, balance: U256, nonce: u64, code: Seq<u8>)
    requires
        !s.accounts.contains_key(a),
        !s.account_waiters.contains_key(a),
        ls.len() >= 2,
    ensures
        basic_all(s, a, ls).1.len() == ls.len(),
        basic_all(s, a, ls).1[0] == ActionView::FetchAccount(a, source_of(s)),
        forall|i: int| 1 <= i < ls.len() ==> basic_all(s, a, ls).1[i] == ActionView::Wait,
        waiters_of(basic_all(s, a, ls).0.account_waiters, a) == ls,
        account_done_step(basic_all(s, a, ls).0, a, Ok((balance, nonce, code))).1
            == Ok::<_, DatabaseError>(account_of(balance, nonce, code)),
        account_done_step(basic_all(s, a, ls).0, a, Ok((balance, nonce, code))).0.accounts
            == s.accounts.insert(a, account_of(balance, nonce, code)),
{
    let s1 = basic_step(s, a, ls[0]).0;
    assert(s1.account_waiters[a] =~= Seq::empty().push(ls[0]));
    lemma_join_all(s1, a, ls.drop_first());
    assert(Seq::empty().push(ls[0]) + ls.drop_first() =~= ls);
    let acts = basic_all(s, a, ls).1;
    assert forall|i: int| 1 <= i < ls.len() implies acts[i] == ActionView::Wait by {
        assert(acts[i] == basic_all(s1, a, ls.drop_first()).1[i - 1]);
    }
}

/// Once an account's fetch has landed, lookups of it are answered from the
/// cache: they start no fetch and change nothing.
pub proof fn lemma_cache_hit_exclusive(s: HandlerView, a: Address, balance: U256, nonce: u64, code: Seq<u8>, l: u64)
    ensures
        ({
            let t = account_done_step(s, a, Ok((balance, nonce, code))).0;
            basic_step(t, a, l) == (t, ActionView::Account(l, account_of(balance, nonce, code)))
        }),
{
}

/// `t` still caches each of the account at `a`, the hash under `key` and
/// slot `slot` of `owner` that `s` caches.
pub open spec fn keeps_cached(s: HandlerView, t: HandlerView, a: Address, key: U256, owner: Address, slot: U256) -> bool {
    &&& s.accounts.contains_key(a) ==> t.accounts.contains_key(a)
    &&& s.block_hashes.contains_key(key) ==> t.block_hashes.contains_key(key)
    &&& cached_slot(s, owner, slot) is Some ==> cached_slot(t, owner, slot) is Some
}

/// A cached entry stays cached: no lookup, completion or pin change drops
/// an account, a storage slot or a block hash from the cache.
pub proof fn lemma_cache_monotone(s: HandlerView, a: Address, key: U256, owner: Address, slot: U256)
    ensures
        forall|x: Address, y: U256, m: u64, l: u64, b: BlockId, r1: Result<(U256, u64, Seq<u8>), String>,
            r2: Result<U256, String>, r3: Result<Option<B256>, String>|
            {
                &&& keeps_cached(s, #[trigger] basic_step(s, x, l).0, a, key, owner, slot)
                &&& keeps_cached(s, #[trigger] storage_step(s, x, y, l).0, a, key, owner, slot)
                &&& keeps_cached(s, #[trigger] block_hash_step(s, m, l).0, a, key, owner, slot)
                &&& keeps_cached(s, #[trigger] pin_step(s, b), a, key, owner, slot)
                &&& keeps_cached(s, #[trigger] account_done_step(s, x, r1).0, a, key, owner, slot)
                &&& keeps_cached(s, #[trigger] storage_done_step(s, x, y, r2).0, a, key, owner, slot)
                &&& keeps_cached(s, #[trigger] block_hash_done_step(s, m, r3).0, a, key, owner, slot)
            },
{
}

/// A failed fetch caches nothing, and the next lookup of the same key
/// starts a fresh fetch.
pub proof fn lemma_error_not_cached(s: HandlerView, a: Address, i: U256, n: u64, e: String, l: u64)
    ensures
        ({
            let t = account_done_step(s, a, Err(e)).0;
            t.accounts == s.accounts && (!s.accounts.contains_key(a) ==> basic_step(t, a, l).1
                == ActionView::FetchAccount(a, source_of(t)))
        }),
        ({
            let t = storage_done_step(s, a, i, Err(e)).0;
            t.storage == s.storage && (!(s.storage.contains_key(a) && s.storage[a].contains_key(i))
                ==> storage_step(t, a, i, l).1 == ActionView::FetchStorage(a, i, source_of(t)))
        }),
        ({
            let t = block_hash_done_step(s, n, Err(e)).0;
            t.block_hashes == s.block_hashes && (!s.block_hashes.contains_key(U256::spec_from_u64(n))
                ==> block_hash_step(t, n, l).1 == ActionView::FetchBlockHash(n))
        }),
{
}

/// Every account and storage fetch is made at the pinned block (the latest
/// block where none is pinned), and moving the pin drops nothing from the
/// cache: later fetches are made at the new pin.
pub proof fn lemma_pin(s: HandlerView, b: BlockId)
    ensures
        source_block(source_of(s)) == remote_block(s),
        source_block(source_of(pin_step(s, b))) == b,
        pin_step(s, b).accounts == s.accounts,
        pin_step(s, b).storage == s.storage,
        pin_step(s, b).block_hashes == s.block_hashes,
        pin_step(s, b).account_waiters == s.account_waiters,
        pin_step(s, b).storage_waiters == s.storage_waiters,
        pin_step(s, b).block_waiters == s.block_waiters,
{
}

/// A fetched account without code carries the hash of the empty string as
/// its code hash; one with code carries the Keccak-256 digest of its code.
pub proof fn lemma_empty_code_hash(s: HandlerView, a: Address, balance: U256, nonce: u64, code: Seq<u8>)
    ensures
        ({
            let t = account_done_step(s, a, Ok((balance, nonce, code))).0;
            &&& t.accounts.contains_key(a)
            &&& t.accounts[a].code == code
            &&& code.len() == 0 ==> t.accounts[a].code_hash == empty_hash_spec()
            &&& code.len() > 0 ==> t.accounts[a].code_hash == keccak256_of(code)
        }),
{
}

/// A block that the provider does not have is cached as the empty-string
/// hash, and later lookups of it are answered from the cache.
pub proof fn lemma_block_not_found_cached(s: HandlerView, n: u64, l: u64)
    ensures
        ({
            let (t, reply) = block_hash_done_step(s, n, Ok(None));
            &&& reply == Ok::<_, DatabaseError>(empty_hash_spec())
            &&& t.block_hashes[U256::spec_from_u64(n)] == empty_hash_spec()
            &&& block_hash_step(t, n, l) == (t, ActionView::BlockHash(l, empty_hash_spec()))
        }),
{
}

/// The state after the account fetches `done` land one after another, each
/// with its address and fetched balance, nonce and code.
pub open spec fn accounts_fetched(s: HandlerView, done: Seq<(Address, (U256, u64, Seq<u8>))>) -> HandlerView
    decreases done.len(),
{
    if done.len() == 0 {
        s
    } else {
        accounts_fetched(account_done_step(s, done[0].0, Ok(done[0].1)).0, done.drop_first())
    }
}

/// The addresses of a sequence of landed account fetches.
pub open spec fn fetched_addresses(done: Seq<(Address, (U256, u64, Seq<u8>))>) -> Set<Address> {
    done.map_values(|d: (Address, (U256, u64, Seq<u8>))| d.0).to_set()
}

/// Starting from an empty cache, the accounts cached after any sequence of
/// successful fetches are exactly the distinct addresses fetched, however
/// often each was fetched.
pub proof fn lemma_cache_cardinality(s: HandlerView, done: Seq<(Address, (U256, u64, Seq<u8>))>)
    requires
        s.accounts == Map::<Address, AccountView>::empty(),
    ensures
        accounts_fetched(s, done).accounts.dom() == fetched_addresses(done),
        accounts_fetched(s, done).accounts.len() == fetched_addresses(done).len(),
{
    lemma_fetched_dom(s, done);
    assert(s.accounts.dom() =~= Set::<Address>::empty());
    assert(Set::<Address>::empty().union(fetched_addresses(done)) =~= fetched_addresses(done));
}

proof fn lemma_fetched_dom(s: HandlerView, done: Seq<(Address, (U256, u64, Seq<u8>))>)
    ensures
        accounts_fetched(s, done).accounts.dom() == s.accounts.dom().union(fetched_addresses(done)),
    decreases done.len(),
{
    let addrs = done.map_values(|d: (Address, (U256, u64, Seq<u8>))| d.0);
    if done.len() == 0 {
        assert(addrs.to_set() =~= Set::<Address>::empty());
        assert(s.accounts.dom().union(Set::<Address>::empty()) =~= s.accounts.dom());
    } else {
        let t = account_done_step(s, done[0].0, Ok(done[0].1)).0;
        lemma_fetched_dom(t, done.drop_first());
        let rest = done.drop_first().map_values(|d: (Address, (U256, u64, Seq<u8>))| d.0);
        assert(rest =~= addrs.drop_first());
        assert forall|x: Address| addrs.to_set().contains(x) == (x == done[0].0 || rest.to_set().contains(x)) by {
            if addrs.contains(x) && x != done[0].0 {
                let k = choose|k: int| 0 <= k < addrs.len() && addrs[k] == x;
                assert(k > 0);
                assert(rest[k - 1] == x);
            }
            if rest.contains(x) {
                let k = choose|k: int| 0 <= k < rest.len() && rest[k] == x;
                assert(addrs[k + 1] == x);
            }
            if x == done[0].0 {
                assert(addrs[0] == x);
            }
        }
        assert(t.accounts.dom() =~= s.accounts.dom().insert(done[0].0));
        assert(accounts_fetched(s, done).accounts.dom() =~= s.accounts.dom().union(fetched_addresses(done)));
    }
}


proof fn lemma_apply_unique<K, V>(m0: Map<K, V>, s: Seq<(K, V)>)
    requires
        s.map_values(|e: (K, V)| e.0).no_duplicates(),
    ensures
        forall|k: K| #[trigger] apply_pairs(m0, s).contains_key(k) == (m0.contains_key(k) || s.map_values(|e: (K, V)| e.0).contains(k)),
        forall|j: int| 0 <= j < s.len() ==> apply_pairs(m0, s)[(#[trigger] s[j]).0] == s[j].1,
    decreases s.len(),
{
    if s.len() > 0 {
        let rest = s.drop_first();
        let m1 = m0.insert(s[0].0, s[0].1);
        let ks = s.map_values(|e: (K, V)| e.0);
        let kr = rest.map_values(|e: (K, V)| e.0);
        assert(kr =~= ks.drop_first());
        assert(kr.no_duplicates());
        lemma_apply_unique(m1, rest);
        assert(apply_pairs(m0, s) == apply_pairs(m1, rest));
        assert forall|k: K| #[trigger] apply_pairs(m0, s).contains_key(k) == (m0.contains_key(k) || ks.contains(k)) by {
            if ks.contains(k) && k != s[0].0 {
                let j = choose|j: int| 0 <= j < ks.len() && ks[j] == k;
                assert(j > 0);
                assert(kr[j - 1] == k);
            }
            if kr.contains(k) {
                let j = choose|j: int| 0 <= j < kr.len() && kr[j] == k;
                assert(ks[j + 1] == k);
            }
            if k == s[0].0 {
                assert(ks[0] == k);
            }
            assert(apply_pairs(m1, rest).contains_key(k) == (m1.contains_key(k) || kr.contains(k)));
        }
        assert forall|j: int| 0 <= j < s.len() implies apply_pairs(m0, s)[(#[trigger] s[j]).0] == s[j].1 by {
            if j > 0 {
                assert(s[j] == rest[j - 1]);
            } else {
                if kr.contains(s[0].0) {
                    let i = choose|i: int| 0 <= i < kr.len() && kr[i] == s[0].0;
                    assert(ks[i + 1] == ks[0]);
                }
                lemma_apply_keeps(m1, rest, s[0].0);
            }
        }
    }
}

proof fn lemma_apply_keeps<K, V>(m0: Map<K, V>, s: Seq<(K, V)>, k: K)
    requires
        !s.map_values(|e: (K, V)| e.0).contains(k),
        m0.contains_key(k),
    ensures
        apply_pairs(m0, s).contains_key(k),
        apply_pairs(m0, s)[k] == m0[k],
    decreases s.len(),
{
    if s.len() > 0 {
        let ks = s.map_values(|e: (K, V)| e.0);
        let kr = s.drop_first().map_values(|e: (K, V)| e.0);
        assert(ks[0] == s[0].0);
        if kr.contains(k) {
            let j = choose|j: int| 0 <= j < kr.len() && kr[j] == k;
            assert(ks[j + 1] == k);
        }
        lemma_apply_keeps(m0.insert(s[0].0, s[0].1), s.drop_first(), k);
    }
}

/// Writing a listing of `m` (each key once, each with its value) into an
/// empty map, in order, rebuilds `m`.
pub proof fn lemma_apply_listing<K, V>(m: Map<K, V>, s: Seq<(K, V)>)
    requires
        lists_pairs(s, m),
    ensures
        apply_pairs(Map::<K, V>::empty(), s) == m,
{
    lemma_apply_unique(Map::<K, V>::empty(), s);
    let r = apply_pairs(Map::<K, V>::empty(), s);
    let ks = s.map_values(|e: (K, V)| e.0);
    assert forall|k: K| #[trigger] r.contains_key(k) == m.contains_key(k) by {
        assert(ks.to_set().contains(k) == ks.contains(k));
    }
    assert forall|k: K| #[trigger] r.contains_key(k) implies r[k] == m[k] by {
        let j = choose|j: int| 0 <= j < ks.len() && ks[j] == k;
        assert(s[j].0 == k);
    }
    assert(r =~= m);
}

/// `s` lists the storage `m`: each address once, each with a listing of its
/// slots.
pub open spec fn lists_slot_lists(s: Seq<(Address, Seq<(U256, U256)>)>, m: Map<Address, Map<U256, U256>>) -> bool {
    &&& s.map_values(|e: (Address, Seq<(U256, U256)>)| e.0).no_duplicates()
    &&& s.map_values(|e: (Address, Seq<(U256, U256)>)| e.0).to_set() == m.dom()
    &&& forall|j: int| 0 <= j < s.len() ==> lists_pairs((#[trigger] s[j]).1, m[s[j].0])
}

/// Flushing the cache and loading the file back gives the same cache: where
/// the file was written from listings of the accounts, storage and block
/// hashes (each key once, as the snapshots give them), the handler loaded
/// from it caches exactly those maps, with nothing in flight.
pub proof fn lemma_flush_round_trip(
    v: HandlerView,
    a: Seq<(Address, AccountView)>,
    s: Seq<(Address, Seq<(U256, U256)>)>,
    h: Seq<(U256, B256)>,
    w: HandlerView,
)
    requires
        lists_pairs(a, v.accounts),
        lists_slot_lists(s, v.storage),
        lists_pairs(h, v.block_hashes),
        loaded(w, a, s, h, v.pin, v.local),
    ensures
        w.accounts == v.accounts,
        w.storage == v.storage,
        w.block_hashes == v.block_hashes,
        w.pin == v.pin,
{
    lemma_apply_listing(v.accounts, a);
    lemma_apply_listing(v.block_hashes, h);
    let sm = slot_maps(s);
    assert(sm.map_values(|e: (Address, Map<U256, U256>)| e.0) =~= s.map_values(|e: (Address, Seq<(U256, U256)>)| e.0));
    assert forall|j: int| 0 <= j < sm.len() implies v.storage[(#[trigger] sm[j]).0] == sm[j].1 by {
        assert(lists_pairs(s[j].1, v.storage[s[j].0]));
        lemma_apply_listing(v.storage[s[j].0], s[j].1);
    }
    lemma_apply_listing(v.storage, sm);
}

} // verus!
