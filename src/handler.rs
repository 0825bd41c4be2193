use vstd::prelude::*;

use crate::account::{empty_hash, AccountInfo, AccountView};
use crate::error::DatabaseError;
use crate::model::{
    account_done_step, add_waiter, apply_pairs, basic_step, block_hash_done_step, cached_slot, block_hash_step, pin_step,
    slots_with, source_of, storage_done_step, storage_step, waiters_of, ActionView, HandlerView, Source,
};
use crate::table::Table;
use crate::types::{Address, BlockId, SlotKey, B256, U256};

verus! {

/// What the event loop is to do after a lookup.
#[derive(Debug)]
pub enum Action {
    /// Answer listener with the cached account.
    Account(u64, AccountInfo),
    /// Answer listener with the cached storage value.
    Storage(u64, U256),
    /// Answer listener with the cached block hash.
    BlockHash(u64, B256),
    /// Start fetching an account.
    FetchAccount(Address, Source),
    /// Start fetching a storage slot.
    FetchStorage(Address, U256, Source),
    /// Start fetching the hash of a block by its number.
    FetchBlockHash(u64),
    /// Start fetching a full block for the listener; it is never cached.
    FetchFullBlock(BlockId, u64),
    /// Start fetching a transaction for the listener; it is never cached.
    FetchTransaction(B256, u64),
    /// The listener waits on a fetch already in flight.
    Wait,
    /// The request changed the state and needs no reply.
    Updated,
}

impl View for Action {
    type V = ActionView;

    open spec fn view(&self) -> ActionView {
        match self {
            Action::Account(l, a) => ActionView::Account(*l, a@),
            Action::Storage(l, v) => ActionView::Storage(*l, *v),
            Action::BlockHash(l, h) => ActionView::BlockHash(*l, *h),
            Action::FetchAccount(a, s) => ActionView::FetchAccount(*a, *s),
            Action::FetchStorage(a, i, s) => ActionView::FetchStorage(*a, *i, *s),
            Action::FetchBlockHash(n) => ActionView::FetchBlockHash(*n),
            Action::FetchFullBlock(b, l) => ActionView::FetchFullBlock(*b, *l),
            Action::FetchTransaction(h, l) => ActionView::FetchTransaction(*h, *l),
            Action::Wait => ActionView::Wait,
            Action::Updated => ActionView::Updated,
        }
    }
}

/// The decisions of the event loop that serves lookups: the cache of
/// accounts, storage and block hashes, the listeners waiting on each fetch
/// in flight, and the pinned block. It performs no I/O: each call says what
/// the loop around it is to do.
pub struct BackendHandler {
    accounts: Table<Address, AccountInfo>,
    storage: Table<Address, Table<U256, U256>>,
    block_hashes: Table<U256, B256>,
    account_requests: Table<Address, Vec<u64>>,
    storage_requests: Table<SlotKey, Vec<u64>>,
    block_requests: Table<u64, Vec<u64>>,
    block_id: Option<BlockId>,
    local: bool,
}

/// A command of the event loop's inbox. The `u64` of a lookup names the
/// listener that is to receive the reply.
pub enum Request {
    Basic(Address, u64),
    Storage(Address, U256, u64),
    BlockHash(u64, u64),
    FullBlock(BlockId, u64),
    Transaction(B256, u64),
    SetPinnedBlock(BlockId),
    UpdateAddress(Vec<(Address, AccountInfo)>),
    UpdateStorage(Vec<(Address, Table<U256, U256>)>),
    UpdateBlockHash(Vec<(U256, B256)>),
}

impl Request {
    /// The listener that is to receive the reply, for a request that has one.
    pub fn listener(&self) -> (r: Option<u64>)
        ensures
            r == match *self {
                Request::Basic(_, l) | Request::Storage(_, _, l) | Request::BlockHash(_, l) => Some(l),
                Request::FullBlock(_, l) | Request::Transaction(_, l) => Some(l),
                _ => None::<u64>,
            },
    {
        match self {
            Request::Basic(_, l) | Request::Storage(_, _, l) | Request::BlockHash(_, l) => Some(*l),
            Request::FullBlock(_, l) | Request::Transaction(_, l) => Some(*l),
            _ => None,
        }
    }

    pub open spec fn wf(&self) -> bool {
        match self {
            Request::UpdateStorage(d) => forall|i: int| 0 <= i < d@.len() ==> (#[trigger] d@[i]).1.wf(),
            _ => true,
        }
    }
}

/// The reply to a fetch, and the listeners that are to receive it.
pub struct Fanout<T> {
    pub listeners: Vec<u64>,
    pub reply: Result<T, DatabaseError>,
}

/// A fetched balance, nonce and code, in the form the contracts speak of.
pub open spec fn resp_view(resp: Result<(U256, u64, Vec<u8>), String>) -> Result<(U256, u64, Seq<u8>), String> {
    match resp {
        Ok((b, n, c)) => Ok((b, n, c@)),
        Err(e) => Err(e),
    }
}

/// An account reply, in the form the contracts speak of.
pub open spec fn account_reply_view(r: Result<AccountInfo, DatabaseError>) -> Result<AccountView, DatabaseError> {
    match r {
        Ok(a) => Ok(a@),
        Err(e) => Err(e),
    }
}

/// The accounts of a bulk update, in the form the contracts speak of.
pub open spec fn accounts_view(d: Seq<(Address, AccountInfo)>) -> Seq<(Address, AccountView)> {
    d.map_values(|e: (Address, AccountInfo)| (e.0, e.1@))
}

/// The storage of a bulk update, in the form the contracts speak of.
pub open spec fn storage_view(d: Seq<(Address, Table<U256, U256>)>) -> Seq<(Address, Map<U256, U256>)> {
    d.map_values(|e: (Address, Table<U256, U256>)| (e.0, e.1@))
}

/// `s` lists the map `m`: each key once, each with its value.
pub open spec fn lists_pairs<K, V>(s: Seq<(K, V)>, m: Map<K, V>) -> bool {
    &&& s.map_values(|e: (K, V)| e.0).no_duplicates()
    &&& s.map_values(|e: (K, V)| e.0).to_set() == m.dom()
    &&& forall|j: int| 0 <= j < s.len() ==> m[(#[trigger] s[j]).0] == s[j].1
}

/// `s` lists the accounts `m`: each address once, each with its account.
pub open spec fn lists_accounts(s: Seq<(Address, AccountInfo)>, m: Map<Address, AccountView>) -> bool {
    &&& s.map_values(|e: (Address, AccountInfo)| e.0).no_duplicates()
    &&& s.map_values(|e: (Address, AccountInfo)| e.0).to_set() == m.dom()
    &&& forall|j: int| 0 <= j < s.len() ==> m[(#[trigger] s[j]).0] == s[j].1@
}

/// `s` lists the storage `m`: each address once, each with its slots listed.
pub open spec fn lists_storage(s: Seq<(Address, Vec<(U256, U256)>)>, m: Map<Address, Map<U256, U256>>) -> bool {
    &&& s.map_values(|e: (Address, Vec<(U256, U256)>)| e.0).no_duplicates()
    &&& s.map_values(|e: (Address, Vec<(U256, U256)>)| e.0).to_set() == m.dom()
    &&& forall|j: int| 0 <= j < s.len() ==> lists_pairs((#[trigger] s[j]).1@, m[s[j].0])
}

/// The listeners of each key of a table of waiting lists.
pub open spec fn waiters_view<K: crate::types::Key>(t: Table<K, Vec<u64>>) -> Map<K, Seq<u64>> {
    Map::new(|k: K| t@.contains_key(k), |k: K| t@[k]@)
}

impl View for BackendHandler {
    type V = HandlerView;

    closed spec fn view(&self) -> HandlerView {
        HandlerView {
            accounts: Map::new(|a: Address| self.accounts@.contains_key(a), |a: Address| self.accounts@[a]@),
            storage: Map::new(|a: Address| self.storage@.contains_key(a), |a: Address| self.storage@[a]@),
            block_hashes: self.block_hashes@,
            account_waiters: waiters_view(self.account_requests),
            storage_waiters: waiters_view(self.storage_requests),
            block_waiters: waiters_view(self.block_requests),
            pin: self.block_id,
            local: self.local,
        }
    }
}

impl BackendHandler {
    pub closed spec fn wf(&self) -> bool {
        &&& self.accounts.wf()
        &&& self.storage.wf()
        &&& forall|a: Address| #[trigger] self.storage@.contains_key(a) ==> self.storage@[a].wf()
        &&& self.block_hashes.wf()
        &&& self.account_requests.wf()
        &&& self.storage_requests.wf()
        &&& self.block_requests.wf()
    }

    /// A handler with an empty cache and nothing in flight, pinned to
    /// `block_id`; `local` says whether a local archive is configured.
    pub fn new(block_id: Option<BlockId>, local: bool) -> (r: BackendHandler)
        ensures
            r.wf(),
            r@.accounts == Map::<Address, AccountView>::empty(),
            r@.storage == Map::<Address, Map<U256, U256>>::empty(),
            r@.block_hashes == Map::<U256, B256>::empty(),
            r@.account_waiters == Map::<Address, Seq<u64>>::empty(),
            r@.storage_waiters == Map::<SlotKey, Seq<u64>>::empty(),
            r@.block_waiters == Map::<u64, Seq<u64>>::empty(),
            r@.pin == block_id,
            r@.local == local,
    {
        let r = BackendHandler {
            accounts: Table::new(),
            storage: Table::new(),
            block_hashes: Table::new(),
            account_requests: Table::new(),
            storage_requests: Table::new(),
            block_requests: Table::new(),
            block_id,
            local,
        };
        assert(r@.accounts =~= Map::<Address, AccountView>::empty());
        assert(r@.storage =~= Map::<Address, Map<U256, U256>>::empty());
        assert(r@.account_waiters =~= Map::<Address, Seq<u64>>::empty());
        assert(r@.storage_waiters =~= Map::<SlotKey, Seq<u64>>::empty());
        assert(r@.block_waiters =~= Map::<u64, Seq<u64>>::empty());
        r
    }

    /// Where account and storage fetches go now.
    fn source(&self) -> (r: Source)
        ensures
            r == source_of(self@),
    {
        match self.block_id {
            Some(BlockId::Number(n)) => if self.local {
                Source::Local(n, BlockId::Number(n))
            } else {
                Source::Remote(BlockId::Number(n))
            },
            Some(b) => Source::Remote(b),
            None => Source::Remote(BlockId::Latest),
        }
    }

    /// Registers `l` on `k` in a table of waiting lists; returns whether a
    /// fetch for `k` was already in flight.
    fn add_listener<K: crate::types::Key>(t: &mut Table<K, Vec<u64>>, k: K, l: u64) -> (r: bool)
        requires
            old(t).wf(),
        ensures
            final(t).wf(),
            r == old(t)@.contains_key(k),
            waiters_view(*final(t)) == add_waiter(waiters_view(*old(t)), k, l),
    {
        let ghost pre = waiters_view(*t);
        let (mut ls, joined) = match t.remove(&k) {
            Some(ls) => (ls, true),
            None => (Vec::new(), false),
        };
        assert(ls@ == waiters_of(pre, k));
        ls.push(l);
        t.insert(k, ls);
        assert(waiters_view(*t) =~= add_waiter(pre, k, l));
        joined
    }

    /// Takes the listeners waiting on `k`.
    fn take_listeners<K: crate::types::Key>(t: &mut Table<K, Vec<u64>>, k: &K) -> (r: Vec<u64>)
        requires
            old(t).wf(),
        ensures
            final(t).wf(),
            r@ == waiters_of(waiters_view(*old(t)), *k),
            waiters_view(*final(t)) == waiters_view(*old(t)).remove(*k),
    {
        let ghost pre = waiters_view(*t);
        let r = match t.remove(k) {
            Some(ls) => ls,
            None => Vec::new(),
        };
        assert(waiters_view(*t) =~= pre.remove(*k));
        r
    }

    /// Serves a request for the basic info of account `a` for listener `l`:
    /// from the cache where it holds the account, else by joining the fetch
    /// in flight for `a`, else by starting one at the pinned block.
    pub fn basic(&mut self, a: Address, l: u64) -> (r: Action)
        requires
            old(self).wf(),
        ensures
            final(self).wf(),
            final(self)@ == basic_step(old(self)@, a, l).0,
            r@ == basic_step(old(self)@, a, l).1,
    {
        match self.accounts.get(&a) {
            Some(acc) => {
                return Action::Account(l, acc.duplicate());
            },
            None => {},
        }
        let src = self.source();
        let joined = Self::add_listener(&mut self.account_requests, a, l);
        if joined {
            Action::Wait
        } else {
            Action::FetchAccount(a, src)
        }
    }
    /// Serves a request for slot `i` of account `a` for listener `l`, as
    /// `basic` does for accounts.
    pub fn storage(&mut self, a: Address, i: U256, l: u64) -> (r: Action)
        requires
            old(self).wf(),
        ensures
            final(self).wf(),
            final(self)@ == storage_step(old(self)@, a, i, l).0,
            r@ == storage_step(old(self)@, a, i, l).1,
    {
        match self.storage.get(&a) {
            Some(slots) => match slots.get(&i) {
                Some(v) => {
                    return Action::Storage(l, *v);
                },
                None => {},
            },
            None => {},
        }
        let src = self.source();
        let joined = Self::add_listener(&mut self.storage_requests, SlotKey { address: a, slot: i }, l);
        if joined {
            Action::Wait
        } else {
            Action::FetchStorage(a, i, src)
        }
    }

    /// Serves a request for the hash of block `n` for listener `l`, as
    /// `basic` does for accounts.
    pub fn block_hash(&mut self, n: u64, l: u64) -> (r: Action)
        requires
            old(self).wf(),
        ensures
            final(self).wf(),
            final(self)@ == block_hash_step(old(self)@, n, l).0,
            r@ == block_hash_step(old(self)@, n, l).1,
    {
        match self.block_hashes.get(&U256::from_u64(n)) {
            Some(h) => {
                return Action::BlockHash(l, *h);
            },
            None => {},
        }
        let joined = Self::add_listener(&mut self.block_requests, n, l);
        if joined {
            Action::Wait
        } else {
            Action::FetchBlockHash(n)
        }
    }

    /// Moves the pin to `b`. What is cached stays and keeps answering.
    pub fn set_pinned_block(&mut self, b: BlockId)
        requires
            old(self).wf(),
        ensures
            final(self).wf(),
            final(self)@ == pin_step(old(self)@, b),
    {
        self.block_id = Some(b);
    }

    /// Records a fetched account, or its failure, and hands back the reply
    /// that every listener waiting on it is to receive. A failure leaves
    /// nothing in the cache.
    pub fn on_account_fetched(&mut self, a: Address, resp: Result<(U256, u64, Vec<u8>), String>) -> (r: Fanout<AccountInfo>)
        requires
            old(self).wf(),
        ensures
            final(self).wf(),
            final(self)@ == account_done_step(old(self)@, a, resp_view(resp)).0,
            r.listeners@ == waiters_of(old(self)@.account_waiters, a),
            account_reply_view(r.reply) == account_done_step(old(self)@, a, resp_view(resp)).1,
    {
        let ghost pre = self@;
        let listeners = Self::take_listeners(&mut self.account_requests, &a);
        match resp {
            Ok((balance, nonce, code)) => {
                let acc = AccountInfo::from_parts(balance, nonce, code);
                let reply = acc.duplicate();
                self.accounts.insert(a, acc);
                assert(self@.accounts =~= pre.accounts.insert(a, reply@));
                Fanout { listeners, reply: Ok(reply) }
            },
            Err(e) => Fanout { listeners, reply: Err(DatabaseError::GetAccount(a, e)) },
        }
    }

    /// Records a fetched storage value, or its failure, and hands back the
    /// reply for its listeners.
    pub fn on_storage_fetched(&mut self, a: Address, i: U256, resp: Result<U256, String>) -> (r: Fanout<U256>)
        requires
            old(self).wf(),
        ensures
            final(self).wf(),
            final(self)@ == storage_done_step(old(self)@, a, i, resp).0,
            r.listeners@ == waiters_of(old(self)@.storage_waiters, SlotKey { address: a, slot: i }),
            r.reply == storage_done_step(old(self)@, a, i, resp).1,
    {
        let ghost pre = self@;
        let listeners = Self::take_listeners(&mut self.storage_requests, &SlotKey { address: a, slot: i });
        match resp {
            Ok(v) => {
                let mut slots = match self.storage.remove(&a) {
                    Some(t) => t,
                    None => Table::new(),
                };
                slots.insert(i, v);
                assert(slots@ == slots_with(pre, a, i, v));
                self.storage.insert(a, slots);
                assert(self@.storage =~= pre.storage.insert(a, slots_with(pre, a, i, v)));
                Fanout { listeners, reply: Ok(v) }
            },
            Err(e) => Fanout { listeners, reply: Err(DatabaseError::GetStorage(a, i, e)) },
        }
    }

    /// Records a fetched block hash, or its failure, and hands back the reply
    /// for its listeners. A block that the provider does not have is cached
    /// as the empty-string hash.
    pub fn on_block_hash_fetched(&mut self, n: u64, resp: Result<Option<B256>, String>) -> (r: Fanout<B256>)
        requires
            old(self).wf(),
        ensures
            final(self).wf(),
            final(self)@ == block_hash_done_step(old(self)@, n, resp).0,
            r.listeners@ == waiters_of(old(self)@.block_waiters, n),
            r.reply == block_hash_done_step(old(self)@, n, resp).1,
    {
        let listeners = Self::take_listeners(&mut self.block_requests, &n);
        match resp {
            Ok(found) => {
                let h = match found {
                    Some(h) => h,
                    None => empty_hash(),
                };
                self.block_hashes.insert(U256::from_u64(n), h);
                Fanout { listeners, reply: Ok(h) }
            },
            Err(e) => Fanout { listeners, reply: Err(DatabaseError::GetBlockHash(n, e)) },
        }
    }
    /// Writes each account of `data` into the cache, in order, without
    /// asking the provider.
    pub fn update_accounts(&mut self, data: Vec<(Address, AccountInfo)>)
        requires
            old(self).wf(),
        ensures
            final(self).wf(),
            final(self)@ == (HandlerView { accounts: apply_pairs(old(self)@.accounts, accounts_view(data@)), ..old(self)@ }),
    {
        let ghost pre = self@;
        let ghost all = accounts_view(data@);
        let mut data = data;
        while data.len() > 0
            invariant
                self.wf(),
                self@ == (HandlerView { accounts: self@.accounts, ..pre }),
                apply_pairs(self@.accounts, accounts_view(data@)) == apply_pairs(pre.accounts, all),
            decreases data@.len(),
        {
            let ghost m = self@.accounts;
            let ghost d = accounts_view(data@);
            let (a, acc) = data.remove(0);
            let ghost v = acc@;
            self.accounts.insert(a, acc);
            assert(self@.accounts =~= m.insert(a, v));
            assert(accounts_view(data@) =~= d.drop_first());
        }
        assert(accounts_view(data@) =~= Seq::<(Address, AccountView)>::empty());
    }

    /// Replaces the slots of each account of `data`, in order, without
    /// asking the provider.
    pub fn update_storage(&mut self, data: Vec<(Address, Table<U256, U256>)>)
        requires
            old(self).wf(),
            forall|i: int| 0 <= i < data@.len() ==> (#[trigger] data@[i]).1.wf(),
        ensures
            final(self).wf(),
            final(self)@ == (HandlerView { storage: apply_pairs(old(self)@.storage, storage_view(data@)), ..old(self)@ }),
    {
        let ghost pre = self@;
        let ghost all = storage_view(data@);
        let mut data = data;
        while data.len() > 0
            invariant
                self.wf(),
                forall|i: int| 0 <= i < data@.len() ==> (#[trigger] data@[i]).1.wf(),
                self@ == (HandlerView { storage: self@.storage, ..pre }),
                apply_pairs(self@.storage, storage_view(data@)) == apply_pairs(pre.storage, all),
            decreases data@.len(),
        {
            let ghost m = self@.storage;
            let ghost d = storage_view(data@);
            let ghost before = data@;
            assert(before[0].1.wf());
            let (a, slots) = data.remove(0);
            let ghost v = slots@;
            self.storage.insert(a, slots);
            assert(self@.storage =~= m.insert(a, v));
            assert(storage_view(data@) =~= d.drop_first());
            assert forall|i: int| 0 <= i < data@.len() implies (#[trigger] data@[i]).1.wf() by {
                assert(data@[i] == before[i + 1]);
            }
        }
        assert(storage_view(data@) =~= Seq::<(Address, Map<U256, U256>)>::empty());
    }

    /// Writes each block hash of `data` into the cache, in order, without
    /// asking the provider.
    pub fn update_block_hashes(&mut self, data: Vec<(U256, B256)>)
        requires
            old(self).wf(),
        ensures
            final(self).wf(),
            final(self)@ == (HandlerView { block_hashes: apply_pairs(old(self)@.block_hashes, data@), ..old(self)@ }),
    {
        let ghost pre = self@;
        let ghost all = data@;
        let mut data = data;
        while data.len() > 0
            invariant
                self.wf(),
                self@ == (HandlerView { block_hashes: self@.block_hashes, ..pre }),
                apply_pairs(self@.block_hashes, data@) == apply_pairs(pre.block_hashes, all),
            decreases data@.len(),
        {
            let ghost d = data@;
            let (n, h) = data.remove(0);
            self.block_hashes.insert(n, h);
            assert(data@ =~= d.drop_first());
        }
    }
    /// Dispatches one command of the event loop's inbox.
    pub fn on_request(&mut self, req: Request) -> (r: Action)
        requires
            old(self).wf(),
            req.wf(),
        ensures
            final(self).wf(),
            match req {
                Request::Basic(a, l) => final(self)@ == basic_step(old(self)@, a, l).0 && r@ == basic_step(old(self)@, a, l).1,
                Request::Storage(a, i, l) => final(self)@ == storage_step(old(self)@, a, i, l).0 && r@ == storage_step(old(self)@, a, i, l).1,
                Request::BlockHash(n, l) => final(self)@ == block_hash_step(old(self)@, n, l).0 && r@ == block_hash_step(old(self)@, n, l).1,
                Request::FullBlock(b, l) => final(self)@ == old(self)@ && r@ == ActionView::FetchFullBlock(b, l),
                Request::Transaction(h, l) => final(self)@ == old(self)@ && r@ == ActionView::FetchTransaction(h, l),
                Request::SetPinnedBlock(b) => final(self)@ == pin_step(old(self)@, b) && r@ == ActionView::Updated,
                Request::UpdateAddress(d) => final(self)@ == (HandlerView { accounts: apply_pairs(old(self)@.accounts, accounts_view(d@)), ..old(self)@ }) && r@ == ActionView::Updated,
                Request::UpdateStorage(d) => final(self)@ == (HandlerView { storage: apply_pairs(old(self)@.storage, storage_view(d@)), ..old(self)@ }) && r@ == ActionView::Updated,
                Request::UpdateBlockHash(d) => final(self)@ == (HandlerView { block_hashes: apply_pairs(old(self)@.block_hashes, d@), ..old(self)@ }) && r@ == ActionView::Updated,
            },
    {
        match req {
            Request::Basic(a, l) => self.basic(a, l),
            Request::Storage(a, i, l) => self.storage(a, i, l),
            Request::BlockHash(n, l) => self.block_hash(n, l),
            Request::FullBlock(b, l) => Action::FetchFullBlock(b, l),
            Request::Transaction(h, l) => Action::FetchTransaction(h, l),
            Request::SetPinnedBlock(b) => {
                self.set_pinned_block(b);
                Action::Updated
            },
            Request::UpdateAddress(d) => {
                self.update_accounts(d);
                Action::Updated
            },
            Request::UpdateStorage(d) => {
                self.update_storage(d);
                Action::Updated
            },
            Request::UpdateBlockHash(d) => {
                self.update_block_hashes(d);
                Action::Updated
            },
        }
    }

    /// The pinned block, if any.
    pub fn pinned_block(&self) -> (r: Option<BlockId>)
        ensures
            r == self@.pin,
    {
        self.block_id
    }

    /// The number of accounts cached.
    pub fn accounts_len(&self) -> (r: usize)
        requires
            self.wf(),
        ensures
            r == self@.accounts.len(),
    {
        assert(self@.accounts.dom() =~= self.accounts@.dom());
        self.accounts.len()
    }

    /// The number of accounts with cached storage.
    pub fn storage_len(&self) -> (r: usize)
        requires
            self.wf(),
        ensures
            r == self@.storage.len(),
    {
        assert(self@.storage.dom() =~= self.storage@.dom());
        self.storage.len()
    }

    /// The number of block hashes cached.
    pub fn block_hashes_len(&self) -> (r: usize)
        requires
            self.wf(),
        ensures
            r == self@.block_hashes.len(),
    {
        self.block_hashes.len()
    }

    /// The cached account at `a`, if any.
    pub fn cached_account(&self, a: &Address) -> (r: Option<AccountInfo>)
        requires
            self.wf(),
        ensures
            match r {
                Some(acc) => self@.accounts.contains_key(*a) && acc@ == self@.accounts[*a],
                None => !self@.accounts.contains_key(*a),
            },
    {
        match self.accounts.get(a) {
            Some(acc) => Some(acc.duplicate()),
            None => None,
        }
    }

    /// The cached value of slot `i` of account `a`, if any.
    pub fn cached_storage(&self, a: &Address, i: &U256) -> (r: Option<U256>)
        requires
            self.wf(),
        ensures
            r == cached_slot(self@, *a, *i),
    {
        match self.storage.get(a) {
            Some(slots) => match slots.get(i) {
                Some(v) => Some(*v),
                None => None,
            },
            None => None,
        }
    }

    /// The cached hash under block key `n`, if any.
    pub fn cached_block_hash(&self, n: &U256) -> (r: Option<B256>)
        requires
            self.wf(),
        ensures
            match r {
                Some(h) => self@.block_hashes.contains_key(*n) && h == self@.block_hashes[*n],
                None => !self@.block_hashes.contains_key(*n),
            },
    {
        match self.block_hashes.get(n) {
            Some(h) => Some(*h),
            None => None,
        }
    }

    /// The addresses of the cached accounts.
    pub fn account_addresses(&self) -> (r: Vec<Address>)
        requires
            self.wf(),
        ensures
            r@.to_set() == self@.accounts.dom(),
            r@.no_duplicates(),
    {
        assert(self@.accounts.dom() =~= self.accounts@.dom());
        self.accounts.keys()
    }

    /// The addresses with cached storage.
    pub fn storage_addresses(&self) -> (r: Vec<Address>)
        requires
            self.wf(),
        ensures
            r@.to_set() == self@.storage.dom(),
            r@.no_duplicates(),
    {
        assert(self@.storage.dom() =~= self.storage@.dom());
        self.storage.keys()
    }

    /// The cached slots of account `a`.
    pub fn storage_slots(&self, a: &Address) -> (r: Vec<U256>)
        requires
            self.wf(),
        ensures
            self@.storage.contains_key(*a) ==> r@.to_set() == self@.storage[*a].dom(),
            !self@.storage.contains_key(*a) ==> r@.len() == 0,
            r@.no_duplicates(),
    {
        match self.storage.get(a) {
            Some(slots) => slots.keys(),
            None => Vec::new(),
        }
    }

    /// The block keys with a cached hash.
    pub fn block_hash_keys(&self) -> (r: Vec<U256>)
        requires
            self.wf(),
        ensures
            r@.to_set() == self@.block_hashes.dom(),
            r@.no_duplicates(),
    {
        self.block_hashes.keys()
    }
    /// The cached accounts, each address once.
    pub fn snapshot_accounts(&self) -> (r: Vec<(Address, AccountInfo)>)
        requires
            self.wf(),
        ensures
            lists_accounts(r@, self@.accounts),
    {
        let keys = self.account_addresses();
        let mut out: Vec<(Address, AccountInfo)> = Vec::new();
        let mut i: usize = 0;
        while i < keys.len()
            invariant
                self.wf(),
                keys@.to_set() == self@.accounts.dom(),
                keys@.no_duplicates(),
                i <= keys@.len(),
                out@.len() == i,
                forall|j: int| 0 <= j < i ==> (#[trigger] out@[j]).0 == keys@[j] && out@[j].1@ == self@.accounts[keys@[j]],
            decreases keys@.len() - i,
        {
            assert(keys@.to_set().contains(keys@[i as int]));
            let acc = match self.cached_account(&keys[i]) {
                Some(acc) => acc,
                None => AccountInfo::from_parts(U256::zero(), 0, Vec::new()),
            };
            out.push((keys[i], acc));
            i = i + 1;
        }
        proof {
            assert(out@.map_values(|e: (Address, AccountInfo)| e.0) =~= keys@);
        }
        out
    }

    /// The cached storage, each address once with each of its slots once.
    pub fn snapshot_storage(&self) -> (r: Vec<(Address, Vec<(U256, U256)>)>)
        requires
            self.wf(),
        ensures
            lists_storage(r@, self@.storage),
    {
        let keys = self.storage_addresses();
        let mut out: Vec<(Address, Vec<(U256, U256)>)> = Vec::new();
        let mut i: usize = 0;
        while i < keys.len()
            invariant
                self.wf(),
                keys@.to_set() == self@.storage.dom(),
                keys@.no_duplicates(),
                i <= keys@.len(),
                out@.len() == i,
                forall|j: int| 0 <= j < i ==> (#[trigger] out@[j]).0 == keys@[j] && lists_pairs(out@[j].1@, self@.storage[keys@[j]]),
            decreases keys@.len() - i,
        {
            let a = keys[i];
            assert(keys@.to_set().contains(a));
            let slots = self.storage_slots(&a);
            let mut pairs: Vec<(U256, U256)> = Vec::new();
            let mut k: usize = 0;
            while k < slots.len()
                invariant
                    self.wf(),
                    self@.storage.contains_key(a),
                    slots@.to_set() == self@.storage[a].dom(),
                    slots@.no_duplicates(),
                    k <= slots@.len(),
                    pairs@.len() == k,
                    forall|j: int| 0 <= j < k ==> (#[trigger] pairs@[j]).0 == slots@[j] && pairs@[j].1 == self@.storage[a][slots@[j]],
                decreases slots@.len() - k,
            {
                assert(slots@.to_set().contains(slots@[k as int]));
                let v = match self.cached_storage(&a, &slots[k]) {
                    Some(v) => v,
                    None => U256::zero(),
                };
                pairs.push((slots[k], v));
                k = k + 1;
            }
            proof {
                assert(pairs@.map_values(|e: (U256, U256)| e.0) =~= slots@);
            }
            out.push((a, pairs));
            i = i + 1;
        }
        proof {
            assert(out@.map_values(|e: (Address, Vec<(U256, U256)>)| e.0) =~= keys@);
        }
        out
    }

    /// The cached block hashes, each block key once.
    pub fn snapshot_block_hashes(&self) -> (r: Vec<(U256, B256)>)
        requires
            self.wf(),
        ensures
            lists_pairs(r@, self@.block_hashes),
    {
        let keys = self.block_hash_keys();
        let mut out: Vec<(U256, B256)> = Vec::new();
        let mut i: usize = 0;
        while i < keys.len()
            invariant
                self.wf(),
                keys@.to_set() == self@.block_hashes.dom(),
                keys@.no_duplicates(),
                i <= keys@.len(),
                out@.len() == i,
                forall|j: int| 0 <= j < i ==> (#[trigger] out@[j]).0 == keys@[j] && out@[j].1 == self@.block_hashes[keys@[j]],
            decreases keys@.len() - i,
        {
            assert(keys@.to_set().contains(keys@[i as int]));
            let h = match self.cached_block_hash(&keys[i]) {
                Some(h) => h,
                None => B256 { hi: 0, lo: 0 },
            };
            out.push((keys[i], h));
            i = i + 1;
        }
        proof {
            assert(out@.map_values(|e: (U256, B256)| e.0) =~= keys@);
        }
        out
    }
}

/// The reply to a full-block fetch: the block, `BlockNotFound` where the
/// provider has none, or the provider's failure. Full blocks are never cached.
pub fn full_block_reply<T>(id: BlockId, resp: Result<Option<T>, String>) -> (r: Result<T, DatabaseError>)
    ensures
        match resp {
            Ok(Some(b)) => r == Ok::<T, DatabaseError>(b),
            Ok(None) => r == Err::<T, DatabaseError>(DatabaseError::BlockNotFound(id)),
            Err(e) => r == Err::<T, DatabaseError>(DatabaseError::GetFullBlock(id, e)),
        },
{
    match resp {
        Ok(Some(b)) => Ok(b),
        Ok(None) => Err(DatabaseError::BlockNotFound(id)),
        Err(e) => Err(DatabaseError::GetFullBlock(id, e)),
    }
}

/// The reply to a transaction fetch: the transaction, or `GetTransaction`
/// where the provider failed or has no such transaction. Transactions are
/// never cached.
pub fn transaction_reply<T>(h: B256, resp: Result<Option<T>, String>) -> (r: Result<T, DatabaseError>)
    ensures
        match resp {
            Ok(Some(t)) => r == Ok::<T, DatabaseError>(t),
            Ok(None) => match r {
                Err(DatabaseError::GetTransaction(x, m)) => x == h && m@ == transaction_not_found(),
                _ => false,
            },
            Err(e) => r == Err::<T, DatabaseError>(DatabaseError::GetTransaction(h, e)),
        },
{
    match resp {
        Ok(Some(t)) => Ok(t),
        Ok(None) => Err(DatabaseError::GetTransaction(h, not_found_message())),
        Err(e) => Err(DatabaseError::GetTransaction(h, e)),
    }
}

/// The cause given when the provider has no such transaction.
pub open spec fn transaction_not_found() -> Seq<char> {
    "transaction not found"@
}

fn not_found_message() -> (r: String)
    ensures
        r@ == transaction_not_found(),
{
    String::from_str("transaction not found")
}


} // verus!
