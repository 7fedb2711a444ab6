//! The symbol table that encoder and decoder both keep: token <-> key.
use vstd::prelude::*;
use ahash::AHashMap;
use ahash::AHasher;
use crate::error::FluxPackError;
use crate::outside::{key_index_clone, key_index, key_index_new, key_index_get, key_index_insert, key_index_contains, key_index_clear, hasher_new, hasher_write_token, hasher_write_key, hasher_finish};
use crate::MAX_TOKENS;

verus! {

/// Number of common ML pipeline field names pre-loaded into every table.
pub const COMMON_ML_KEY_COUNT: usize = 20;

/// The pre-defined key with index `i` (token `i + 1`).
pub open spec fn common_key(i: int) -> Seq<char> {
    if i == 0 { "epoch"@ }
    else if i == 1 { "loss"@ }
    else if i == 2 { "accuracy"@ }
    else if i == 3 { "val_loss"@ }
    else if i == 4 { "val_accuracy"@ }
    else if i == 5 { "learning_rate"@ }
    else if i == 6 { "batch_size"@ }
    else if i == 7 { "step"@ }
    else if i == 8 { "timestamp"@ }
    else if i == 9 { "status"@ }
    else if i == 10 { "model_type"@ }
    else if i == 11 { "optimizer"@ }
    else if i == 12 { "lr"@ }
    else if i == 13 { "metrics"@ }
    else if i == 14 { "config"@ }
    else if i == 15 { "train_loss"@ }
    else if i == 16 { "test_loss"@ }
    else if i == 17 { "f1"@ }
    else if i == 18 { "precision"@ }
    else { "recall"@ }
}

/// Pre-defined common ML pipeline field names for zero-cost interning, in token order.
pub fn common_ml_key(i: usize) -> (k: &'static str)
    requires
        i < COMMON_ML_KEY_COUNT,
    ensures
        k@ == common_key(i as int),
{
    if i == 0 { "epoch" }
    else if i == 1 { "loss" }
    else if i == 2 { "accuracy" }
    else if i == 3 { "val_loss" }
    else if i == 4 { "val_accuracy" }
    else if i == 5 { "learning_rate" }
    else if i == 6 { "batch_size" }
    else if i == 7 { "step" }
    else if i == 8 { "timestamp" }
    else if i == 9 { "status" }
    else if i == 10 { "model_type" }
    else if i == 11 { "optimizer" }
    else if i == 12 { "lr" }
    else if i == 13 { "metrics" }
    else if i == 14 { "config" }
    else if i == 15 { "train_loss" }
    else if i == 16 { "test_loss" }
    else if i == 17 { "f1" }
    else if i == 18 { "precision" }
    else { "recall" }
}

/// The state of a symbol table.
pub ghost struct TableModel {
    /// Key of each token; index 0 is unused (empty) unless a DEF stores it.
    pub keys: Seq<Seq<char>>,
    /// Token of each interned or defined key.
    pub index: Map<Seq<char>, u16>,
    /// Which tokens have had their DEF frame emitted (by token).
    pub emitted: Seq<bool>,
    /// The token the next new key gets.
    pub next: u16,
    /// Every assigned token, in increasing order.
    pub cache: Seq<u16>,
    /// Cached schema fingerprint, 0 when not computed.
    pub fp: u64,
}

pub open spec fn strictly_increasing(s: Seq<u16>) -> bool {
    forall|i: int, j: int| 0 <= i < j < s.len() ==> s[i] < s[j]
}

/// `s` with `t` put in its sorted place (nothing changes if `t` is already there).
pub open spec fn insert_sorted(s: Seq<u16>, t: u16) -> Seq<u16>
    decreases s.len(),
{
    if s.len() == 0 {
        seq![t]
    } else if s[0] == t {
        s
    } else if s[0] > t {
        seq![t] + s
    } else {
        seq![s[0]] + insert_sorted(s.drop_first(), t)
    }
}

impl TableModel {
    pub open spec fn wf(self) -> bool {
        &&& 1 <= self.next <= MAX_TOKENS + 1
        &&& self.keys.len() == self.next as nat
        &&& forall|k: Seq<char>| #[trigger] self.index.dom().contains(k) ==> {
            &&& (self.index[k] as nat) < self.keys.len()
            &&& (k.len() > 0 ==> self.keys[self.index[k] as int] == k)
        }
        &&& strictly_increasing(self.cache)
        &&& forall|i: int| 0 <= i < self.cache.len() ==> #[trigger] self.cache[i] < self.next
    }

    /// The key of token `t`, if it has a non-empty one.
    pub open spec fn resolve(self, t: u16) -> Option<Seq<char>> {
        if (t as nat) < self.keys.len() && self.keys[t as int].len() > 0 {
            Some(self.keys[t as int])
        } else {
            None
        }
    }

    pub open spec fn def_emitted(self, t: u16) -> bool {
        (t as nat) < self.emitted.len() && self.emitted[t as int]
    }

    /// Interning `k`: its token if known, else the next token, assigned to it.
    pub open spec fn intern(self, k: Seq<char>) -> (Result<u16, FluxPackError>, TableModel) {
        if self.index.dom().contains(k) {
            (Ok(self.index[k]), self)
        } else if self.next > MAX_TOKENS {
            (Err(FluxPackError::TableOverflow), self)
        } else {
            (
                Ok(self.next),
                TableModel {
                    keys: self.keys.push(k),
                    index: self.index.insert(k, self.next),
                    emitted: self.emitted.push(false),
                    next: (self.next + 1) as u16,
                    cache: self.cache.push(self.next),
                    fp: 0,
                },
            )
        }
    }

    /// Storing a DEF frame's mapping `t -> k`.
    pub open spec fn store_def(self, t: u16, k: Seq<char>) -> (Result<(), FluxPackError>, TableModel) {
        if t > MAX_TOKENS {
            (Err(FluxPackError::TableOverflow), self)
        } else if (t as nat) < self.keys.len() && self.keys[t as int].len() > 0 {
            if self.keys[t as int] != k {
                (Err(FluxPackError::DuplicateDef(t)), self)
            } else {
                (Ok(()), self)
            }
        } else {
            let keys = if (t as nat) < self.keys.len() {
                self.keys
            } else {
                self.keys + Seq::new((t + 1 - self.keys.len()) as nat, |i: int| Seq::<char>::empty())
            };
            let emitted = if (t as nat) < self.emitted.len() {
                self.emitted
            } else {
                self.emitted + Seq::new((t + 1 - self.emitted.len()) as nat, |i: int| false)
            };
            (
                Ok(()),
                TableModel {
                    keys: keys.update(t as int, k),
                    index: self.index.insert(k, t),
                    emitted,
                    next: if t >= self.next { (t + 1) as u16 } else { self.next },
                    cache: insert_sorted(self.cache, t),
                    fp: 0,
                },
            )
        }
    }

    /// Marking the DEF of `t` as emitted.
    pub open spec fn mark(self, t: u16) -> TableModel {
        let emitted = if (t as nat) < self.emitted.len() {
            self.emitted
        } else {
            self.emitted + Seq::new((t + 1 - self.emitted.len()) as nat, |i: int| false)
        };
        TableModel { emitted: emitted.update(t as int, true), ..self }
    }

    /// `(token, key)` for every token of `cache` (from position `i` on) that has a key.
    pub open spec fn entries_from(self, i: int) -> Seq<(u16, Seq<char>)>
        decreases self.cache.len() - i,
    {
        if i >= self.cache.len() || i < 0 {
            Seq::empty()
        } else {
            let t = self.cache[i];
            let rest = self.entries_from(i + 1);
            match self.resolve(t) {
                Some(k) => seq![(t, k)] + rest,
                None => rest,
            }
        }
    }

    /// `(token, key)` for every token that has a key, in token order.
    pub open spec fn entries(self) -> Seq<(u16, Seq<char>)> {
        self.entries_from(0)
    }

    /// Like `entries_from`, but only tokens whose DEF has not been emitted.
    pub open spec fn pending_from(self, i: int) -> Seq<(u16, Seq<char>)>
        decreases self.cache.len() - i,
    {
        if i >= self.cache.len() || i < 0 {
            Seq::empty()
        } else {
            let t = self.cache[i];
            let rest = self.pending_from(i + 1);
            if !self.def_emitted(t) && self.resolve(t) is Some {
                seq![(t, self.keys[t as int])] + rest
            } else {
                rest
            }
        }
    }

    /// Tokens with a key whose DEF frame is still to be emitted, in token order.
    pub open spec fn pending(self) -> Seq<(u16, Seq<char>)> {
        self.pending_from(0)
    }

    /// How many tokens of `cache` from position `i` on have no DEF emitted yet.
    pub open spec fn pending_count_from(self, i: int) -> nat
        decreases self.cache.len() - i,
    {
        if i >= self.cache.len() || i < 0 {
            0
        } else {
            (if !self.def_emitted(self.cache[i]) { 1nat } else { 0nat }) + self.pending_count_from(i + 1)
        }
    }
}

/// Interning the keys `ks` one after the other, stopping at the first failure.
pub open spec fn intern_all(t: TableModel, ks: Seq<Seq<char>>) -> (Result<(), FluxPackError>, TableModel)
    decreases ks.len(),
{
    if ks.len() == 0 {
        (Ok(()), t)
    } else {
        let (r, t1) = t.intern(ks[0]);
        match r {
            Ok(_) => intern_all(t1, ks.drop_first()),
            Err(e) => (Err(e), t1),
        }
    }
}

/// Interning one key is `TableModel::intern`.
pub proof fn lemma_intern_all_one(t: TableModel, k: Seq<char>)
    ensures
        intern_all(t, seq![k]) == (match t.intern(k).0 {
            Ok(_) => (Ok::<(), FluxPackError>(()), t.intern(k).1),
            Err(e) => (Err::<(), FluxPackError>(e), t.intern(k).1),
        }),
{
    reveal_with_fuel(intern_all, 2);
    assert(seq![k].drop_first() =~= Seq::<Seq<char>>::empty());
    assert(seq![k][0] == k);
}

/// Marking the DEF of each token of `pending` as emitted, in order.
pub open spec fn mark_all(t: TableModel, pending: Seq<(u16, Seq<char>)>) -> TableModel
    decreases pending.len(),
{
    if pending.len() == 0 {
        t
    } else {
        mark_all(t, pending.drop_last()).mark(pending.last().0)
    }
}

/// Every pending token is an assigned token, below `next`.
pub proof fn lemma_pending_tokens(t: TableModel, i: int)
    requires
        t.wf(),
        0 <= i,
    ensures
        forall|j: int| 0 <= j < t.pending_from(i).len() ==> #[trigger] t.pending_from(i)[j].0 < t.next,
    decreases t.cache.len() - i,
{
    if i < t.cache.len() {
        lemma_pending_tokens(t, i + 1);
        let rest = t.pending_from(i + 1);
        let tok = t.cache[i];
        assert(tok < t.next);
        if !t.def_emitted(tok) && t.resolve(tok) is Some {
            let p = seq![(tok, t.keys[tok as int])] + rest;
            assert forall|j: int| 0 <= j < p.len() implies #[trigger] p[j].0 < t.next by {
                if j > 0 {
                    assert(p[j] == rest[j - 1]);
                }
            }
        }
    }
}

/// Marking tokens changes only which DEFs count as emitted.
pub proof fn lemma_mark_all_keeps(t: TableModel, pending: Seq<(u16, Seq<char>)>)
    ensures
        mark_all(t, pending) == (TableModel { emitted: mark_all(t, pending).emitted, ..t }),
    decreases pending.len(),
{
    if pending.len() > 0 {
        lemma_mark_all_keeps(t, pending.drop_last());
    }
}

/// Every key of `ks` has a token in `index`.
pub open spec fn keys_in(ks: Seq<Seq<char>>, index: Map<Seq<char>, u16>) -> bool {
    forall|i: int| 0 <= i < ks.len() ==> index.dom().contains(#[trigger] ks[i])
}

/// Interning a concatenation is interning its first part, then (unless that failed) the second.
pub proof fn lemma_intern_all_concat(t: TableModel, a: Seq<Seq<char>>, b: Seq<Seq<char>>)
    ensures
        intern_all(t, a + b) == (match intern_all(t, a).0 {
            Ok(_) => intern_all(intern_all(t, a).1, b),
            Err(e) => intern_all(t, a),
        }),
    decreases a.len(),
{
    if a.len() == 0 {
        assert(a + b =~= b);
    } else {
        let (r, t1) = t.intern(a[0]);
        assert((a + b).drop_first() =~= a.drop_first() + b);
        assert((a + b)[0] == a[0]);
        if r is Ok {
            lemma_intern_all_concat(t1, a.drop_first(), b);
        }
    }
}

/// Interning keeps a well-formed table well-formed, keeps every token it had, and a success
/// leaves every interned key with a token.
pub proof fn lemma_intern_all_keeps(t: TableModel, ks: Seq<Seq<char>>)
    requires
        t.wf(),
    ensures
        intern_all(t, ks).1.wf(),
        forall|k: Seq<char>| #[trigger] t.index.dom().contains(k) ==>
            intern_all(t, ks).1.index.dom().contains(k) && intern_all(t, ks).1.index[k] == t.index[k],
        intern_all(t, ks).0 is Ok ==> keys_in(ks, intern_all(t, ks).1.index),
    decreases ks.len(),
{
    if ks.len() > 0 {
        let (r, t1) = t.intern(ks[0]);
        lemma_intern_keeps(t, ks[0]);
        if r is Ok {
            lemma_intern_all_keeps(t1, ks.drop_first());
            let t2 = intern_all(t1, ks.drop_first()).1;
            if intern_all(t1, ks.drop_first()).0 is Ok {
            assert forall|i: int| 0 <= i < ks.len() implies t2.index.dom().contains(#[trigger] ks[i]) by {
                if i > 0 {
                    assert(ks.drop_first()[i - 1] == ks[i]);
                } else {
                    assert(t1.index.dom().contains(ks[0]));
                }
            }
            }
        }
    }
}

pub proof fn lemma_intern_keeps(t: TableModel, k: Seq<char>)
    requires
        t.wf(),
    ensures
        t.intern(k).1.wf(),
        forall|k2: Seq<char>| #[trigger] t.index.dom().contains(k2) ==>
            t.intern(k).1.index.dom().contains(k2) && t.intern(k).1.index[k2] == t.index[k2],
        t.intern(k).0 is Ok ==> t.intern(k).1.index.dom().contains(k)
            && t.intern(k).0 == Ok::<u16, FluxPackError>(t.intern(k).1.index[k]),
        t.intern(k).1.keys.len() >= t.keys.len(),
        forall|i: int| 0 <= i < t.keys.len() ==> #[trigger] t.intern(k).1.keys[i] == t.keys[i],
{
    let (r, t1) = t.intern(k);
    if r is Ok && !t.index.dom().contains(k) {
        assert forall|k2: Seq<char>| #[trigger] t1.index.dom().contains(k2) implies
            (t1.index[k2] as nat) < t1.keys.len() && (k2.len() > 0 ==> t1.keys[t1.index[k2] as int] == k2) by {
            if k2 != k {
                assert(t.index.dom().contains(k2));
            }
        }
        assert forall|i: int| 0 <= i < t1.cache.len() implies #[trigger] t1.cache[i] < t1.next by {
            if i < t.cache.len() {
                assert(t.cache[i] < t.next);
            }
        }
        assert(strictly_increasing(t1.cache)) by {
            assert forall|i: int, j: int| 0 <= i < j < t1.cache.len() implies t1.cache[i] < t1.cache[j] by {
                if j < t.cache.len() {
                } else {
                    assert(t.cache[i] < t.next);
                }
            }
        }
    }
}

/// The index holding the first `n` pre-defined keys.
pub open spec fn predefined_index(n: nat) -> Map<Seq<char>, u16>
    decreases n,
{
    if n == 0 {
        Map::empty()
    } else {
        predefined_index((n - 1) as nat).insert(common_key(n - 1), n as u16)
    }
}

/// A fresh table: the 20 common ML keys hold tokens 1 to 20.
pub open spec fn predefined_model() -> TableModel {
    TableModel {
        keys: seq![Seq::<char>::empty()] + Seq::new(20, |i: int| common_key(i)),
        index: predefined_index(20),
        emitted: Seq::new(21, |i: int| true),
        next: 21,
        cache: Seq::new(20, |i: int| (i + 1) as u16),
        fp: 0,
    }
}

/// The shared symbol table that both encoder and decoder maintain.
pub struct SymbolTable {
    /// Token-to-key mapping, indexed by token; index 0 is unused.
    id_to_key: Vec<String>,
    /// Key-to-token mapping.
    key_to_id: AHashMap<String, u16>,
    next_token: u16,
    /// Tracks which tokens have had DEF frames emitted (encoder only).
    emitted_defs: Vec<bool>,
    /// Schema fingerprint, 0 when it must be recomputed.
    schema_fingerprint: u64,
    /// Assigned tokens in increasing order.
    sorted_tokens_cache: Vec<u16>,
}

/// The characters of each string.
pub open spec fn strings_view(v: Seq<String>) -> Seq<Seq<char>> {
    Seq::new(v.len(), |i: int| v[i]@)
}

pub proof fn lemma_strings_view_push(v: Seq<String>, x: String)
    ensures
        strings_view(v.push(x)) =~= strings_view(v).push(x@),
{
}

impl View for SymbolTable {
    type V = TableModel;

    closed spec fn view(&self) -> TableModel {
        TableModel {
            keys: strings_view(self.id_to_key@),
            index: key_index(self.key_to_id),
            emitted: self.emitted_defs@,
            next: self.next_token,
            cache: self.sorted_tokens_cache@,
            fp: self.schema_fingerprint,
        }
    }
}

pub proof fn lemma_predefined_wf()
    ensures
        predefined_model().wf(),
{
    let m = predefined_model();
    assert forall|k: Seq<char>| #[trigger] m.index.dom().contains(k) implies
        (m.index[k] as nat) < m.keys.len() && (k.len() > 0 ==> m.keys[m.index[k] as int] == k) by {
        lemma_predefined_index(20, k);
    }
}

proof fn lemma_predefined_index(n: nat, k: Seq<char>)
    requires
        n <= 20,
    ensures
        predefined_index(n).dom().contains(k) ==> {
            let t = predefined_index(n)[k];
            1 <= t <= n && common_key(t - 1) == k
        },
    decreases n,
{
    if n > 0 {
        lemma_predefined_index((n - 1) as nat, k);
    }
}

impl SymbolTable {
    pub open spec fn wf(&self) -> bool {
        self@.wf()
    }

    /// A new table: the same as `with_predefined`.
    pub fn new() -> (t: Self)
        ensures
            t@ == predefined_model(),
            t.wf(),
    {
        Self::with_predefined()
    }

    /// Create a new symbol table pre-loaded with common ML keys.
    pub fn with_predefined() -> (t: Self)
        ensures
            t@ == predefined_model(),
            t.wf(),
    {
        let mut id_to_key: Vec<String> = Vec::with_capacity(256);
        id_to_key.push(String::new());
        let mut key_to_id = key_index_new();
        let mut next_token: u16 = 1;
        let mut i: usize = 0;
        while i < COMMON_ML_KEY_COUNT
            invariant
                i <= COMMON_ML_KEY_COUNT,
                next_token == i + 1,
                strings_view(id_to_key@) =~= seq![Seq::<char>::empty()]
                    + Seq::new(i as nat, |j: int| common_key(j)),
                key_index(key_to_id) == predefined_index(i as nat),
            decreases COMMON_ML_KEY_COUNT - i,
        {
            let key = common_ml_key(i);
            key_index_insert(&mut key_to_id, key.to_owned(), next_token);
            let ghost before = id_to_key@;
            let owned = key.to_owned();
            id_to_key.push(owned);
            proof {
                lemma_strings_view_push(before, owned);
            }
            next_token = next_token + 1;
            i = i + 1;
            assert(strings_view(id_to_key@) =~= seq![Seq::<char>::empty()]
                + Seq::new(i as nat, |j: int| common_key(j))) by {
                assert(id_to_key@.last()@ == common_key(i - 1));
            }
        }
        let emitted_count = (next_token - 1) as usize;
        // one flag per token, the unused token 0 included: every pre-defined DEF counts as sent
        let mut emitted_defs: Vec<bool> = Vec::new();
        emitted_defs.push(true);
        let mut sorted_tokens_cache: Vec<u16> = Vec::new();
        let mut j: usize = 0;
        while j < emitted_count
            invariant
                j <= emitted_count,
                emitted_count == 20,
                emitted_defs@ =~= Seq::new((j + 1) as nat, |x: int| true),
                sorted_tokens_cache@ =~= Seq::new(j as nat, |x: int| (x + 1) as u16),
            decreases emitted_count - j,
        {
            emitted_defs.push(true);
            sorted_tokens_cache.push((j + 1) as u16);
            j = j + 1;
        }
        let t = SymbolTable {
            id_to_key,
            key_to_id,
            next_token,
            emitted_defs,
            schema_fingerprint: 0,
            sorted_tokens_cache,
        };
        proof {
            lemma_predefined_wf();
            assert(t@ == predefined_model());
        }
        t
    }

    /// Returns the token ID for a key. If the key is new, assigns a new token.
    pub fn intern(&mut self, key: &str) -> (r: Result<u16, FluxPackError>)
        requires
            old(self).wf(),
        ensures
            final(self).wf(),
            (r, final(self)@) == old(self)@.intern(key@),
    {
        match key_index_get(&self.key_to_id, key) {
            Some(id) => {
                return Ok(id);
            },
            None => {},
        }
        if self.next_token > MAX_TOKENS {
            return Err(FluxPackError::TableOverflow);
        }
        let ghost old_m = self@;
        let id = self.next_token;
        self.next_token = self.next_token + 1;
        key_index_insert(&mut self.key_to_id, key.to_owned(), id);
        self.id_to_key.push(key.to_owned());
        self.emitted_defs.push(false);
        self.sorted_tokens_cache.push(id);
        self.schema_fingerprint = 0;
        proof {
            let m = self@;
            assert(m.keys =~= old_m.keys.push(key@));
            assert(m == old_m.intern(key@).1);
            assert forall|k: Seq<char>| #[trigger] m.index.dom().contains(k) implies
                (m.index[k] as nat) < m.keys.len() && (k.len() > 0 ==> m.keys[m.index[k] as int] == k) by {
                if k != key@ {
                    assert(old_m.index.dom().contains(k));
                }
            }
        }
        Ok(id)
    }

    /// Store a DEF frame mapping directly (used by decoders).
    pub fn store_def(&mut self, token: u16, key: &str) -> (r: Result<(), FluxPackError>)
        requires
            old(self).wf(),
        ensures
            final(self).wf(),
            (r, final(self)@) == old(self)@.store_def(token, key@),
    {
        if token > MAX_TOKENS {
            return Err(FluxPackError::TableOverflow);
        }
        let ghost old_m = self@;
        let idx = token as usize;
        if idx < self.id_to_key.len() && !self.id_to_key[idx].as_str().is_empty() {
            let owned = key.to_owned();
            if !(self.id_to_key[idx] == owned) {
                return Err(FluxPackError::DuplicateDef(token));
            }
            return Ok(());
        }
        key_index_insert(&mut self.key_to_id, key.to_owned(), token);
        let ghost k0 = strings_view(self.id_to_key@);
        while self.id_to_key.len() <= idx
            invariant
                k0 == old_m.keys,
                self.id_to_key@.len() >= k0.len(),
                forall|i: int| 0 <= i < k0.len() ==> #[trigger] self.id_to_key@[i]@ == k0[i],
                forall|i: int| k0.len() <= i < self.id_to_key@.len() ==> #[trigger] self.id_to_key@[i]@ == Seq::<char>::empty(),
                self.id_to_key@.len() <= idx + 1 || self.id_to_key@.len() == k0.len(),
                self.emitted_defs == old(self).emitted_defs,
                self.next_token == old(self).next_token,
                self.sorted_tokens_cache == old(self).sorted_tokens_cache,
                key_index(self.key_to_id) == old_m.index.insert(key@, token),
                old_m == old(self)@,
            decreases idx + 1 - self.id_to_key.len(),
        {
            self.id_to_key.push(String::new());
        }
        self.id_to_key.set(idx, key.to_owned());
        proof {
            assert(strings_view(self.id_to_key@) =~= old_m.store_def(token, key@).1.keys);
        }
        let ghost ids = self.id_to_key@;
        let ghost e0 = self.emitted_defs@;
        while self.emitted_defs.len() <= idx
            invariant
                e0 == old_m.emitted,
                self.emitted_defs@.len() >= e0.len(),
                forall|i: int| 0 <= i < e0.len() ==> #[trigger] self.emitted_defs@[i] == e0[i],
                forall|i: int| e0.len() <= i < self.emitted_defs@.len() ==> !#[trigger] self.emitted_defs@[i],
                self.emitted_defs@.len() <= idx + 1 || self.emitted_defs@.len() == e0.len(),
                self.next_token == old(self).next_token,
                self.sorted_tokens_cache == old(self).sorted_tokens_cache,
                old_m == old(self)@,
                self.id_to_key@ == ids,
                key_index(self.key_to_id) == old_m.index.insert(key@, token),
            decreases idx + 1 - self.emitted_defs.len(),
        {
            self.emitted_defs.push(false);
        }
        if token >= self.next_token {
            self.next_token = token + 1;
        }
        insert_sorted_vec(&mut self.sorted_tokens_cache, token);
        self.schema_fingerprint = 0;
        proof {
            let m = self@;
            let spec_m = old_m.store_def(token, key@).1;
            assert(m.keys =~= spec_m.keys);
            assert(m.emitted =~= spec_m.emitted);
            assert(m == spec_m);
            assert forall|k: Seq<char>| #[trigger] m.index.dom().contains(k) implies
                (m.index[k] as nat) < m.keys.len() && (k.len() > 0 ==> m.keys[m.index[k] as int] == k) by {
                if k != key@ {
                    assert(old_m.index.dom().contains(k));
                }
            }
            lemma_insert_sorted(old_m.cache, token);
            assert(m.keys.len() == m.next as nat);
            assert(strictly_increasing(m.cache));
            assert forall|i: int| 0 <= i < m.cache.len() implies #[trigger] m.cache[i] < m.next by {
                assert(m.cache.contains(m.cache[i]));
                if m.cache[i] != token {
                    assert(old_m.cache.contains(m.cache[i]));
                    let j = choose|j: int| 0 <= j < old_m.cache.len() && old_m.cache[j] == m.cache[i];
                    assert(old_m.cache[j] < old_m.next);
                }
            }
        }
        Ok(())
    }

    /// Looks up a key by token ID.
    pub fn resolve(&self, id: u16) -> (r: Option<&str>)
        ensures
            match r {
                Some(k) => self@.resolve(id) == Some(k@),
                None => self@.resolve(id) is None,
            },
    {
        let idx = id as usize;
        if idx < self.id_to_key.len() && !self.id_to_key[idx].as_str().is_empty() {
            Some(self.id_to_key[idx].as_str())
        } else {
            None
        }
    }

    /// Returns true if this key has already been interned.
    pub fn contains_key(&self, key: &str) -> (r: bool)
        ensures
            r == self@.index.dom().contains(key@),
    {
        key_index_contains(&self.key_to_id, key)
    }

    /// Check if a DEF frame has been emitted for this token.
    pub fn def_emitted(&self, token: u16) -> (r: bool)
        ensures
            r == self@.def_emitted(token),
    {
        let idx = token as usize;
        if idx < self.emitted_defs.len() {
            self.emitted_defs[idx]
        } else {
            false
        }
    }

    /// Mark a DEF frame as emitted for this token.
    pub fn mark_def_emitted(&mut self, token: u16)
        requires
            old(self).wf(),
        ensures
            final(self).wf(),
            final(self)@ == old(self)@.mark(token),
    {
        let ghost old_m = self@;
        let idx = token as usize;
        let ghost e0 = self.emitted_defs@;
        while self.emitted_defs.len() <= idx
            invariant
                e0 == old_m.emitted,
                self.emitted_defs@.len() >= e0.len(),
                forall|i: int| 0 <= i < e0.len() ==> #[trigger] self.emitted_defs@[i] == e0[i],
                forall|i: int| e0.len() <= i < self.emitted_defs@.len() ==> !#[trigger] self.emitted_defs@[i],
                self.emitted_defs@.len() <= idx + 1 || self.emitted_defs@.len() == e0.len(),
                self.id_to_key == old(self).id_to_key,
                self.key_to_id == old(self).key_to_id,
                self.next_token == old(self).next_token,
                self.sorted_tokens_cache == old(self).sorted_tokens_cache,
                self.schema_fingerprint == old(self).schema_fingerprint,
            decreases idx + 1 - self.emitted_defs.len(),
        {
            self.emitted_defs.push(false);
        }
        self.emitted_defs.set(idx, true);
        proof {
            assert(self@.emitted =~= old_m.mark(token).emitted);
            assert(self@ == old_m.mark(token));
        }
    }

    /// Returns true if all keys in the table have had their DEFs emitted.
    pub fn all_defs_emitted(&self) -> (r: bool)
        ensures
            r == (forall|i: int| 0 <= i < self@.emitted.len() ==> #[trigger] self@.emitted[i]),
    {
        let mut i: usize = 0;
        while i < self.emitted_defs.len()
            invariant
                i <= self.emitted_defs@.len(),
                forall|j: int| 0 <= j < i ==> #[trigger] self.emitted_defs@[j],
            decreases self.emitted_defs.len() - i,
        {
            if !self.emitted_defs[i] {
                assert(!self@.emitted[i as int]);
                return false;
            }
            i = i + 1;
        }
        true
    }

    /// Compute a schema fingerprint: a hash of every (token, key) pair of the table, in token
    /// order, as `iter` gives them. The hash itself is not stated (its keys are drawn per
    /// process); it is never 0, and a cached one is returned as is.
    pub fn schema_fingerprint(&mut self) -> (fp: u64)
        requires
            old(self).wf(),
        ensures
            final(self).wf(),
            fp != 0,
            old(self)@.fp != 0 ==> fp == old(self)@.fp,
            final(self)@ == (TableModel { fp, ..old(self)@ }),
    {
        if self.schema_fingerprint != 0 {
            return self.schema_fingerprint;
        }
        let pairs = self.iter();
        let mut hasher = hasher_new();
        let mut i: usize = 0;
        while i < pairs.len()
            invariant
                i <= pairs@.len(),
            decreases pairs.len() - i,
        {
            hasher_write_token(&mut hasher, pairs[i].0);
            hasher_write_key(&mut hasher, &pairs[i].1);
            i = i + 1;
        }
        let fp = hasher_finish(&hasher);
        self.schema_fingerprint = if fp == 0 { 1 } else { fp };
        self.schema_fingerprint
    }

    /// Compare schema fingerprints to determine if DEF frames can be skipped.
    pub fn schema_matches(&self, other_fp: u64) -> (r: bool)
        ensures
            r == (self@.fp != 0 && self@.fp == other_fp),
    {
        self.schema_fingerprint != 0 && self.schema_fingerprint == other_fp
    }

    /// Returns the current size of the symbol table (tokens, counting the unused 0).
    pub fn size(&self) -> (n: usize)
        ensures
            n == (if self@.keys.len() >= 1 { self@.keys.len() - 1 } else { 0 }),
    {
        let n = self.id_to_key.len();
        if n >= 1 { n - 1 } else { 0 }
    }

    /// Returns whether the table is empty (excluding index 0).
    pub fn is_empty(&self) -> (r: bool)
        ensures
            r == (self@.keys.len() <= 1),
    {
        self.id_to_key.len() <= 1
    }

    /// Returns the next token that would be assigned.
    pub fn next_token(&self) -> (t: u16)
        ensures
            t == self@.next,
    {
        self.next_token
    }

    /// Clears the symbol table back to its pre-defined keys.
    pub fn reset(&mut self)
        ensures
            final(self)@ == predefined_model(),
            final(self).wf(),
    {
        self.id_to_key.clear();
        self.id_to_key.push(String::new());
        key_index_clear(&mut self.key_to_id);
        self.next_token = 1;
        self.emitted_defs.clear();
        self.emitted_defs.push(true);
        self.schema_fingerprint = 0;
        self.sorted_tokens_cache.clear();
        let mut i: usize = 0;
        while i < COMMON_ML_KEY_COUNT
            invariant
                i <= COMMON_ML_KEY_COUNT,
                self.next_token == i + 1,
                strings_view(self.id_to_key@) =~= seq![Seq::<char>::empty()]
                    + Seq::new(i as nat, |j: int| common_key(j)),
                key_index(self.key_to_id) == predefined_index(i as nat),
                self.emitted_defs@ =~= Seq::new((i + 1) as nat, |x: int| true),
                self.sorted_tokens_cache@ =~= Seq::new(i as nat, |x: int| (x + 1) as u16),
                self.schema_fingerprint == 0,
            decreases COMMON_ML_KEY_COUNT - i,
        {
            let key = common_ml_key(i);
            key_index_insert(&mut self.key_to_id, key.to_owned(), self.next_token);
            let ghost before = self.id_to_key@;
            let owned = key.to_owned();
            self.id_to_key.push(owned);
            proof {
                lemma_strings_view_push(before, owned);
            }
            self.emitted_defs.push(true);
            self.sorted_tokens_cache.push(self.next_token);
            self.next_token = self.next_token + 1;
            i = i + 1;
            assert(strings_view(self.id_to_key@) =~= seq![Seq::<char>::empty()]
                + Seq::new(i as nat, |j: int| common_key(j))) by {
                assert(self.id_to_key@.last()@ == common_key(i - 1));
            }
        }
        proof {
            lemma_predefined_wf();
            assert(self@ == predefined_model());
        }
    }

    /// All (token, key) pairs in token order.
    pub fn iter(&self) -> (r: Vec<(u16, String)>)
        ensures
            pairs_match(r@, self@.entries()),
    {
        let mut out: Vec<(u16, String)> = Vec::new();
        let n = self.sorted_tokens_cache.len();
        let mut i: usize = n;
        while i > 0
            invariant
                i <= n,
                n == self@.cache.len(),
                out@.len() == self@.entries_from(i as int).len(),
                forall|j: int| #![trigger out@[j]] 0 <= j < out@.len() ==> out@[j].0
                    == self@.entries_from(i as int)[out@.len() - 1 - j].0
                    && out@[j].1@ =~= self@.entries_from(i as int)[out@.len() - 1 - j].1,
            decreases i,
        {
            i = i - 1;
            let token = self.sorted_tokens_cache[i];
            match self.resolve(token) {
                Some(k) => {
                    out.push((token, k.to_owned()));
                },
                None => {},
            }
        }
        reverse_pairs(out, Ghost(self@.entries()))
    }

    /// Returns the list of tokens that need DEF frames emitted.
    pub fn pending_defs(&self) -> (r: Vec<(u16, String)>)
        ensures
            pairs_match(r@, self@.pending()),
    {
        let mut out: Vec<(u16, String)> = Vec::new();
        let n = self.sorted_tokens_cache.len();
        let mut i: usize = n;
        while i > 0
            invariant
                i <= n,
                n == self@.cache.len(),
                out@.len() == self@.pending_from(i as int).len(),
                forall|j: int| #![trigger out@[j]] 0 <= j < out@.len() ==> out@[j].0
                    == self@.pending_from(i as int)[out@.len() - 1 - j].0
                    && out@[j].1@ =~= self@.pending_from(i as int)[out@.len() - 1 - j].1,
            decreases i,
        {
            i = i - 1;
            let token = self.sorted_tokens_cache[i];
            if !self.def_emitted(token) {
                match self.resolve(token) {
                    Some(k) => {
                        out.push((token, k.to_owned()));
                    },
                    None => {},
                }
            }
        }
        reverse_pairs(out, Ghost(self@.pending()))
    }

    /// Returns the count of pending DEF frames.
    pub fn pending_defs_count(&self) -> (n: usize)
        ensures
            n == self@.pending_count_from(0),
    {
        let len = self.sorted_tokens_cache.len();
        let mut i: usize = len;
        let mut count: usize = 0;
        while i > 0
            invariant
                i <= len,
                len == self@.cache.len(),
                count == self@.pending_count_from(i as int),
                count <= len - i,
            decreases i,
        {
            i = i - 1;
            if !self.def_emitted(self.sorted_tokens_cache[i]) {
                count = count + 1;
            }
        }
        count
    }
}

/// `r` lists the pairs of `e`, each key as an owned string.
pub open spec fn pairs_match(r: Seq<(u16, String)>, e: Seq<(u16, Seq<char>)>) -> bool {
    &&& r.len() == e.len()
    &&& forall|i: int| #![trigger r[i]] 0 <= i < r.len() ==> r[i].0 == e[i].0 && r[i].1@ =~= e[i].1
}

/// The pairs of `v` in reverse order.
fn reverse_pairs(v: Vec<(u16, String)>, Ghost(e): Ghost<Seq<(u16, Seq<char>)>>) -> (r: Vec<(u16, String)>)
    requires
        v@.len() == e.len(),
        forall|j: int| #![trigger v@[j]] 0 <= j < v@.len() ==> v@[j].0 == e[v@.len() - 1 - j].0
            && v@[j].1@ =~= e[v@.len() - 1 - j].1,
    ensures
        pairs_match(r@, e),
{
    let mut r: Vec<(u16, String)> = Vec::new();
    let mut i: usize = v.len();
    while i > 0
        invariant
            i <= v@.len(),
            v@.len() == e.len(),
            forall|j: int| #![trigger v@[j]] 0 <= j < v@.len() ==> v@[j].0 == e[v@.len() - 1 - j].0
                && v@[j].1@ =~= e[v@.len() - 1 - j].1,
            r@.len() == v@.len() - i,
            forall|j: int| #![trigger r@[j]] 0 <= j < r@.len() ==> r@[j].0 == e[j].0 && r@[j].1@ =~= e[j].1,
        decreases i,
    {
        i = i - 1;
        r.push((v[i].0, v[i].1.clone()));
    }
    r
}

proof fn lemma_insert_sorted(s: Seq<u16>, t: u16)
    requires
        strictly_increasing(s),
    ensures
        strictly_increasing(insert_sorted(s, t)),
        forall|x: u16| #[trigger] insert_sorted(s, t).contains(x) <==> (s.contains(x) || x == t),
    decreases s.len(),
{
    if s.len() > 0 && s[0] < t {
        let d = s.drop_first();
        assert(strictly_increasing(d));
        lemma_insert_sorted(d, t);
        let r = insert_sorted(d, t);
        assert forall|x: u16| r.contains(x) implies s[0] < x by {
            let j = choose|j: int| 0 <= j < r.len() && r[j] == x;
            if x != t {
                assert(d.contains(x));
                let k = choose|k: int| 0 <= k < d.len() && d[k] == x;
                assert(s[k + 1] == x);
            }
        }
        assert forall|x: u16| (seq![s[0]] + r).contains(x) <==> (s.contains(x) || x == t) by {
            if s.contains(x) && x != s[0] {
                let k = choose|k: int| 0 <= k < s.len() && s[k] == x;
                assert(d[k - 1] == x);
                assert(d.contains(x));
                assert(r.contains(x));
                let j = choose|j: int| 0 <= j < r.len() && r[j] == x;
                assert((seq![s[0]] + r)[j + 1] == x);
            }
            if (seq![s[0]] + r).contains(x) && x != s[0] {
                let j = choose|j: int| 0 <= j < (seq![s[0]] + r).len() && (seq![s[0]] + r)[j] == x;
                assert(r[j - 1] == x);
                assert(r.contains(x));
                if x != t {
                    assert(d.contains(x));
                    let k = choose|k: int| 0 <= k < d.len() && d[k] == x;
                    assert(s[k + 1] == x);
                }
            }
            if x == s[0] {
                assert((seq![s[0]] + r)[0] == x);
                assert(s[0] == x);
            }
            if x == t {
                assert(insert_sorted(d, t).contains(t));
                let j = choose|j: int| 0 <= j < r.len() && r[j] == x;
                assert((seq![s[0]] + r)[j + 1] == x);
            }
        }
        let res = seq![s[0]] + r;
        assert forall|i: int, j: int| 0 <= i < j < res.len() implies res[i] < res[j] by {
            if i == 0 {
                assert(r.contains(res[j]));
            }
        }
    } else if s.len() > 0 && s[0] > t {
        let res = seq![t] + s;
        assert forall|x: u16| res.contains(x) <==> (s.contains(x) || x == t) by {
            if s.contains(x) {
                let k = choose|k: int| 0 <= k < s.len() && s[k] == x;
                assert(res[k + 1] == x);
            }
            if res.contains(x) && x != t {
                let j = choose|j: int| 0 <= j < res.len() && res[j] == x;
                assert(s[j - 1] == x);
            }
            if x == t {
                assert(res[0] == x);
            }
        }
    } else if s.len() == 0 {
        assert(seq![t][0] == t);
    } else {
        assert(s[0] == t);
    }
}

/// Puts `t` in its sorted place in `v` (nothing happens if it is already there).
fn insert_sorted_vec(v: &mut Vec<u16>, t: u16)
    requires
        strictly_increasing(old(v)@),
    ensures
        final(v)@ == insert_sorted(old(v)@, t),
{
    let mut i: usize = 0;
    assert(v@.subrange(0, 0) + v@.subrange(0, v@.len() as int) =~= v@);
    while i < v.len() && v[i] < t
        invariant
            i <= v@.len(),
            v@ == old(v)@,
            forall|j: int| 0 <= j < i ==> #[trigger] v@[j] < t,
            insert_sorted(v@, t) == v@.subrange(0, i as int) + insert_sorted(v@.subrange(i as int, v@.len() as int), t),
        decreases v.len() - i,
    {
        proof {
            let sub = v@.subrange(i as int, v@.len() as int);
            assert(sub.drop_first() =~= v@.subrange(i + 1, v@.len() as int));
            assert(v@.subrange(0, i + 1) =~= v@.subrange(0, i as int) + seq![v@[i as int]]);
        }
        i = i + 1;
    }
    if i < v.len() && v[i] == t {
        return;
    }
    proof {
        let sub = v@.subrange(i as int, v@.len() as int);
        assert(v@.subrange(0, i as int) + sub =~= v@);
    }
    v.insert(i, t);
    proof {
        assert(v@ =~= old(v)@.subrange(0, i as int) + seq![t] + old(v)@.subrange(i as int, old(v)@.len() as int));
    }
}

impl Default for SymbolTable {
    fn default() -> (t: Self)
        ensures
            t@ == predefined_model(),
    {
        Self::new()
    }
}

impl Clone for SymbolTable {
    fn clone(&self) -> (t: Self)
        ensures
            t@ == self@,
    {
        let mut id_to_key: Vec<String> = Vec::new();
        let mut i: usize = 0;
        while i < self.id_to_key.len()
            invariant
                i <= self.id_to_key@.len(),
                strings_view(id_to_key@) == strings_view(self.id_to_key@.subrange(0, i as int)),
            decreases self.id_to_key.len() - i,
        {
            let ghost before = id_to_key@;
            let c = self.id_to_key[i].clone();
            id_to_key.push(c);
            proof {
                lemma_strings_view_push(before, c);
                assert(self.id_to_key@.subrange(0, i + 1) =~= self.id_to_key@.subrange(0, i as int).push(self.id_to_key@[i as int]));
                lemma_strings_view_push(self.id_to_key@.subrange(0, i as int), self.id_to_key@[i as int]);
            }
            i = i + 1;
        }
        assert(self.id_to_key@.subrange(0, self.id_to_key@.len() as int) =~= self.id_to_key@);
        SymbolTable {
            id_to_key,
            key_to_id: key_index_clone(&self.key_to_id),
            next_token: self.next_token,
            emitted_defs: copy_flags(&self.emitted_defs),
            schema_fingerprint: self.schema_fingerprint,
            sorted_tokens_cache: copy_tokens(&self.sorted_tokens_cache),
        }
    }
}

fn copy_flags(v: &Vec<bool>) -> (r: Vec<bool>)
    ensures
        r@ == v@,
{
    vstd::slice::slice_to_vec(v.as_slice())
}

fn copy_tokens(v: &Vec<u16>) -> (r: Vec<u16>)
    ensures
        r@ == v@,
{
    vstd::slice::slice_to_vec(v.as_slice())
}

/// Law: interning a non-empty key gives a token that resolves to the key, and interning it
/// again gives the same token and changes nothing.
pub proof fn law_intern_then_resolve(t: TableModel, k: Seq<char>)
    requires
        t.wf(),
        k.len() > 0,
        t.intern(k).0 is Ok,
    ensures
        t.intern(k).1.resolve(t.intern(k).0->Ok_0) == Some(k),
        t.intern(k).1.intern(k) == (t.intern(k).0, t.intern(k).1),
{
    lemma_intern_keeps(t, k);
}

/// Law: once a DEF frame for a non-empty key is stored under a token, the token resolves to
/// that key.
pub proof fn law_store_def_then_resolve(t: TableModel, token: u16, k: Seq<char>)
    requires
        k.len() > 0,
        t.store_def(token, k).0 is Ok,
    ensures
        t.store_def(token, k).1.resolve(token) == Some(k),
{
}


/// Interning a key the table lacks adds its pair after the pairs from position `i` of the
/// token list on.
proof fn lemma_intern_entries_from(t: TableModel, k: Seq<char>, i: int)
    requires
        t.wf(),
        k.len() > 0,
        !t.index.dom().contains(k),
        t.next <= MAX_TOKENS,
        0 <= i <= t.cache.len(),
    ensures
        t.intern(k).1.entries_from(i) == t.entries_from(i).push((t.next, k)),
        forall|j: int| 0 <= j < t.entries_from(i).len() ==> (#[trigger] t.entries_from(i)[j]).0 < t.next,
    decreases t.cache.len() - i,
{
    let t2 = t.intern(k).1;
    assert(t2.cache == t.cache.push(t.next));
    if i == t.cache.len() {
        assert(t2.cache[i] == t.next);
        assert(t2.resolve(t.next) == Some(k));
        assert(t2.entries_from(i + 1) == Seq::<(u16, Seq<char>)>::empty());
        assert(t.entries_from(i) == Seq::<(u16, Seq<char>)>::empty());
        assert(seq![(t.next, k)] + Seq::<(u16, Seq<char>)>::empty() =~= Seq::<(u16, Seq<char>)>::empty().push((t.next, k)));
    } else {
        lemma_intern_entries_from(t, k, i + 1);
        let c = t.cache[i];
        assert(c < t.next);
        assert(t2.cache[i] == c);
        assert(t2.keys[c as int] == t.keys[c as int]);
        assert(t2.resolve(c) == t.resolve(c));
        let rest = t.entries_from(i + 1);
        match t.resolve(c) {
            Some(kc) => {
                assert(seq![(c, kc)] + rest.push((t.next, k)) =~= (seq![(c, kc)] + rest).push((t.next, k)));
                assert forall|j: int| 0 <= j < t.entries_from(i).len() implies (#[trigger] t.entries_from(i)[j]).0 < t.next by {
                    if j > 0 {
                        assert(t.entries_from(i)[j] == rest[j - 1]);
                    }
                }
            },
            None => {},
        }
    }
}

/// Law: interning a key the table lacks changes its schema: the pairs the fingerprint hashes
/// gain the key with its new token (a token no earlier pair has), and the cached fingerprint
/// is dropped, so the next one is computed over the new pairs.
pub proof fn law_new_key_changes_schema(t: TableModel, k: Seq<char>)
    requires
        t.wf(),
        k.len() > 0,
        !t.index.dom().contains(k),
        t.next <= MAX_TOKENS,
    ensures
        t.intern(k).0 == Ok::<u16, FluxPackError>(t.next),
        t.intern(k).1.fp == 0,
        t.intern(k).1.entries() == t.entries().push((t.next, k)),
        forall|j: int| 0 <= j < t.entries().len() ==> (#[trigger] t.entries()[j]).0 != t.next,
{
    lemma_intern_entries_from(t, k, 0);
}

} // verus!
