//! The multi-currency ledger: free and reserved balances per account and
//! currency, with balance-checked `reserve`, best-effort `unreserve` and
//! balance-checked `transfer`.
//!
//! The ledger keeps the grand total of all balances; it is bounded by
//! `u128::MAX`, so moving amounts between positions can never overflow.

use vstd::prelude::*;
use crate::types::{AccountId, Balance, CurrencyId, Error};

verus! {

/// One position: the free and reserved balance of one account in one
/// currency.
#[derive(Clone, Copy, Debug, PartialEq, Eq, Structural)]
pub struct Position {
    pub free: Balance,
    pub reserved: Balance,
}

#[derive(Clone, Copy, Debug, PartialEq, Eq, Structural)]
struct LedgerEntry {
    account: AccountId,
    currency: CurrencyId,
    pos: Position,
}

/// The ledger: an association list of positions with pairwise distinct
/// (account, currency) keys, plus the cached grand total of all balances.
pub struct Ledger {
    entries: Vec<LedgerEntry>,
    total: u128,
}

spec fn key_of(e: LedgerEntry) -> (AccountId, CurrencyId) {
    (e.account, e.currency)
}

spec fn as_map(s: Seq<LedgerEntry>) -> Map<(AccountId, CurrencyId), Position>
    decreases s.len(),
{
    if s.len() == 0 {
        Map::empty()
    } else {
        as_map(s.drop_last()).insert(key_of(s.last()), s.last().pos)
    }
}

spec fn keys_unique(s: Seq<LedgerEntry>) -> bool {
    forall|i: int, j: int|
        0 <= i < j < s.len() ==> key_of(s[i]) != key_of(s[j])
}

spec fn entry_amount(e: LedgerEntry) -> int {
    e.pos.free + e.pos.reserved
}

spec fn sum_amounts(s: Seq<LedgerEntry>) -> int
    decreases s.len(),
{
    if s.len() == 0 {
        0
    } else {
        sum_amounts(s.drop_last()) + entry_amount(s.last())
    }
}

proof fn lemma_as_map_contains(s: Seq<LedgerEntry>, k: (AccountId, CurrencyId))
    ensures
        as_map(s).contains_key(k) <==> exists|i: int| 0 <= i < s.len() && key_of(s[i]) == k,
    decreases s.len(),
{
    if s.len() > 0 {
        lemma_as_map_contains(s.drop_last(), k);
        if as_map(s).contains_key(k) {
            if key_of(s.last()) == k {
                assert(key_of(s[s.len() - 1]) == k);
            } else {
                let i = choose|i: int| 0 <= i < s.drop_last().len() && key_of(s.drop_last()[i]) == k;
                assert(key_of(s[i]) == k);
            }
        }
        if exists|i: int| 0 <= i < s.len() && key_of(s[i]) == k {
            let i = choose|i: int| 0 <= i < s.len() && key_of(s[i]) == k;
            if i < s.len() - 1 {
                assert(key_of(s.drop_last()[i]) == k);
            }
        }
    }
}

proof fn lemma_as_map_index(s: Seq<LedgerEntry>, i: int)
    requires
        keys_unique(s),
        0 <= i < s.len(),
    ensures
        as_map(s).contains_key(key_of(s[i])),
        as_map(s)[key_of(s[i])] == s[i].pos,
    decreases s.len(),
{
    if i == s.len() - 1 {
    } else {
        assert(keys_unique(s.drop_last()));
        assert(s.drop_last()[i] == s[i]);
        lemma_as_map_index(s.drop_last(), i);
        assert(key_of(s[s.len() - 1]) != key_of(s[i]));
    }
}

proof fn lemma_as_map_update(s: Seq<LedgerEntry>, i: int, e: LedgerEntry)
    requires
        keys_unique(s),
        0 <= i < s.len(),
        key_of(e) == key_of(s[i]),
    ensures
        as_map(s.update(i, e)) == as_map(s).insert(key_of(e), e.pos),
        keys_unique(s.update(i, e)),
    decreases s.len(),
{
    let t = s.update(i, e);
    assert(forall|x: int, y: int| 0 <= x < y < t.len() ==> key_of(t[x]) != key_of(t[y]));
    if i == s.len() - 1 {
        assert(t.drop_last() =~= s.drop_last());
        assert(t.last() == e);
        assert(as_map(t) =~= as_map(s).insert(key_of(e), e.pos));
    } else {
        assert(keys_unique(s.drop_last()));
        assert(s.drop_last()[i] == s[i]);
        lemma_as_map_update(s.drop_last(), i, e);
        assert(t.drop_last() =~= s.drop_last().update(i, e));
        assert(t.last() == s.last());
        assert(key_of(s.last()) != key_of(e));
        assert(as_map(t) =~= as_map(s).insert(key_of(e), e.pos));
    }
}

proof fn lemma_as_map_push(s: Seq<LedgerEntry>, e: LedgerEntry)
    requires
        keys_unique(s),
        forall|i: int| 0 <= i < s.len() ==> key_of(s[i]) != key_of(e),
    ensures
        as_map(s.push(e)) == as_map(s).insert(key_of(e), e.pos),
        keys_unique(s.push(e)),
{
    assert(s.push(e).drop_last() =~= s);
    assert(s.push(e).last() == e);
}

proof fn lemma_sum_update(s: Seq<LedgerEntry>, i: int, e: LedgerEntry)
    requires
        0 <= i < s.len(),
    ensures
        sum_amounts(s.update(i, e)) == sum_amounts(s) - entry_amount(s[i]) + entry_amount(e),
    decreases s.len(),
{
    let t = s.update(i, e);
    if i == s.len() - 1 {
        assert(t.drop_last() =~= s.drop_last());
    } else {
        lemma_sum_update(s.drop_last(), i, e);
        assert(t.drop_last() =~= s.drop_last().update(i, e));
        assert(t.last() == s.last());
    }
}

proof fn lemma_sum_push(s: Seq<LedgerEntry>, e: LedgerEntry)
    ensures
        sum_amounts(s.push(e)) == sum_amounts(s) + entry_amount(e),
{
    assert(s.push(e).drop_last() =~= s);
}

proof fn lemma_sum_nonneg(s: Seq<LedgerEntry>)
    ensures
        sum_amounts(s) >= 0,
    decreases s.len(),
{
    if s.len() > 0 {
        lemma_sum_nonneg(s.drop_last());
    }
}

proof fn lemma_sum_ge_entry(s: Seq<LedgerEntry>, i: int)
    requires
        0 <= i < s.len(),
    ensures
        sum_amounts(s) >= entry_amount(s[i]),
    decreases s.len(),
{
    if i == s.len() - 1 {
        lemma_sum_nonneg(s.drop_last());
    } else {
        lemma_sum_ge_entry(s.drop_last(), i);
        assert(s.drop_last()[i] == s[i]);
    }
}

proof fn lemma_sum_ge_two_entries(s: Seq<LedgerEntry>, i: int, j: int)
    requires
        0 <= i < j < s.len(),
    ensures
        sum_amounts(s) >= entry_amount(s[i]) + entry_amount(s[j]),
    decreases s.len(),
{
    if j == s.len() - 1 {
        lemma_sum_ge_entry(s.drop_last(), i);
        assert(s.drop_last()[i] == s[i]);
    } else {
        lemma_sum_ge_two_entries(s.drop_last(), i, j);
        assert(s.drop_last()[i] == s[i]);
        assert(s.drop_last()[j] == s[j]);
    }
}

/// In a well-formed ledger, every position is bounded by the grand total,
/// which itself fits in a `u128`.
pub proof fn lemma_position_bounded(l: &Ledger, a: AccountId, c: CurrencyId)
    requires
        l.wf(),
    ensures
        l.free_of(a, c) + l.reserved_of(a, c) <= l.grand_total(),
        l.grand_total() <= u128::MAX,
{
    lemma_sum_nonneg(l.entries@);
    if l.m().contains_key((a, c)) {
        lemma_as_map_contains(l.entries@, (a, c));
        let i = choose|i: int| 0 <= i < l.entries@.len() && key_of(l.entries@[i]) == (a, c);
        lemma_as_map_index(l.entries@, i);
        lemma_sum_ge_entry(l.entries@, i);
    }
}

impl Ledger {
    /// The ledger's contents as a map from (account, currency) to position.
    pub closed spec fn m(&self) -> Map<(AccountId, CurrencyId), Position> {
        as_map(self.entries@)
    }

    /// Well-formed: keys are pairwise distinct and the cached total is the
    /// sum of all balances (so every position fits within `u128::MAX`).
    pub closed spec fn wf(&self) -> bool {
        &&& keys_unique(self.entries@)
        &&& self.total == sum_amounts(self.entries@)
    }

    /// The free balance of `a` in currency `c`; zero for an absent position.
    pub open spec fn free_of(&self, a: AccountId, c: CurrencyId) -> Balance {
        if self.m().contains_key((a, c)) {
            self.m()[(a, c)].free
        } else {
            0
        }
    }

    /// The reserved balance of `a` in currency `c`; zero for an absent
    /// position.
    pub open spec fn reserved_of(&self, a: AccountId, c: CurrencyId) -> Balance {
        if self.m().contains_key((a, c)) {
            self.m()[(a, c)].reserved
        } else {
            0
        }
    }

    /// The grand total of all free and reserved balances.
    pub closed spec fn grand_total(&self) -> int {
        sum_amounts(self.entries@)
    }

    /// An empty ledger.
    pub fn new() -> (r: Ledger)
        ensures
            r.wf(),
            r.m() == Map::<(AccountId, CurrencyId), Position>::empty(),
            r.grand_total() == 0,
    {
        Ledger { entries: Vec::new(), total: 0 }
    }

    /// The index of the position of (`a`, `c`), if one exists.
    fn find(&self, a: AccountId, c: CurrencyId) -> (r: Option<usize>)
        requires
            self.wf(),
        ensures
            match r {
                Some(i) => {
                    &&& i < self.entries@.len()
                    &&& key_of(self.entries@[i as int]) == (a, c)
                    &&& self.m().contains_key((a, c))
                    &&& self.m()[(a, c)] == self.entries@[i as int].pos
                },
                None => !self.m().contains_key((a, c)),
            },
    {
        let n = self.entries.len();
        let mut i: usize = 0;
        while i < n
            invariant
                n == self.entries@.len(),
                i <= n,
                self.wf(),
                forall|j: int| 0 <= j < i ==> key_of(self.entries@[j]) != (a, c),
            decreases n - i,
        {
            if self.entries[i].account == a && self.entries[i].currency == c {
                proof {
                    lemma_as_map_index(self.entries@, i as int);
                }
                return Some(i);
            }
            i = i + 1;
        }
        proof {
            lemma_as_map_contains(self.entries@, (a, c));
        }
        None
    }

    /// The free balance of `a` in currency `c`.
    pub fn free_balance(&self, a: AccountId, c: CurrencyId) -> (r: Balance)
        requires
            self.wf(),
        ensures
            r == self.free_of(a, c),
    {
        match self.find(a, c) {
            Some(i) => self.entries[i].pos.free,
            None => 0,
        }
    }

    /// The reserved balance of `a` in currency `c`.
    pub fn reserved_balance(&self, a: AccountId, c: CurrencyId) -> (r: Balance)
        requires
            self.wf(),
        ensures
            r == self.reserved_of(a, c),
    {
        match self.find(a, c) {
            Some(i) => self.entries[i].pos.reserved,
            None => 0,
        }
    }

    /// Store `pos` as the position of (`a`, `c`), keeping the cached total
    /// in sync.
    fn put(&mut self, a: AccountId, c: CurrencyId, pos: Position)
        requires
            old(self).wf(),
            old(self).grand_total() - old(self).free_of(a, c) - old(self).reserved_of(a, c)
                + pos.free + pos.reserved <= u128::MAX,
        ensures
            final(self).wf(),
            final(self).m() == old(self).m().insert((a, c), pos),
            final(self).grand_total() == old(self).grand_total() - old(self).free_of(a, c)
                - old(self).reserved_of(a, c) + pos.free + pos.reserved,
    {
        proof {
            lemma_sum_nonneg(self.entries@);
        }
        let ghost s0 = self.entries@;
        match self.find(a, c) {
            Some(i) => {
                let e = LedgerEntry { account: a, currency: c, pos };
                proof {
                    lemma_as_map_index(s0, i as int);
                    lemma_sum_ge_entry(s0, i as int);
                    lemma_as_map_update(s0, i as int, e);
                    lemma_sum_update(s0, i as int, e);
                }
                let old_amount = self.entries[i].pos.free + self.entries[i].pos.reserved;
                self.total = self.total - old_amount;
                self.total = self.total + pos.free;
                self.total = self.total + pos.reserved;
                self.entries[i] = e;
            },
            None => {
                let e = LedgerEntry { account: a, currency: c, pos };
                proof {
                    lemma_as_map_contains(s0, (a, c));
                    lemma_as_map_push(s0, e);
                    lemma_sum_push(s0, e);
                }
                self.total = self.total + pos.free;
                self.total = self.total + pos.reserved;
                self.entries.push(e);
            },
        }
    }

    /// Endow `a` with `amount` of free balance in currency `c`. Fails only
    /// when the ledger's grand total would exceed `u128::MAX`.
    pub fn deposit_free(&mut self, a: AccountId, c: CurrencyId, amount: Balance) -> (r: Result<
        (),
        Error,
    >)
        requires
            old(self).wf(),
        ensures
            final(self).wf(),
            r is Ok <==> old(self).grand_total() + amount <= u128::MAX,
            r is Ok ==> final(self).m() == old(self).m().insert(
                (a, c),
                Position {
                    free: (old(self).free_of(a, c) + amount) as Balance,
                    reserved: old(self).reserved_of(a, c),
                },
            ),
            r is Ok ==> final(self).grand_total() == old(self).grand_total() + amount,
            r is Ok ==> old(self).free_of(a, c) + amount <= u128::MAX,
            r is Err ==> *final(self) == *old(self) && r == Err::<(), Error>(Error::ArithmeticOverflow),
    {
        proof {
            lemma_sum_nonneg(self.entries@);
            if self.m().contains_key((a, c)) {
                lemma_as_map_contains(self.entries@, (a, c));
                let i = choose|i: int|
                    0 <= i < self.entries@.len() && key_of(self.entries@[i]) == (a, c);
                lemma_as_map_index(self.entries@, i);
                lemma_sum_ge_entry(self.entries@, i);
            }
        }
        if amount > u128::MAX - self.total {
            return Err(Error::ArithmeticOverflow);
        }
        let free = self.free_balance(a, c);
        let reserved = self.reserved_balance(a, c);
        self.put(a, c, Position { free: free + amount, reserved });
        Ok(())
    }

    /// Move `amount` of `a`'s free balance in `c` to its reserved balance.
    /// Fails if and only if the free balance is below `amount`.
    pub fn reserve(&mut self, a: AccountId, c: CurrencyId, amount: Balance) -> (r: Result<
        (),
        Error,
    >)
        requires
            old(self).wf(),
        ensures
            final(self).wf(),
            r is Ok <==> old(self).free_of(a, c) >= amount,
            r is Ok ==> final(self).m() == old(self).m().insert(
                (a, c),
                Position {
                    free: (old(self).free_of(a, c) - amount) as Balance,
                    reserved: (old(self).reserved_of(a, c) + amount) as Balance,
                },
            ),
            r is Err ==> *final(self) == *old(self) && r == Err::<(), Error>(Error::InsufficientBalance),
            r is Ok ==> old(self).reserved_of(a, c) + amount <= u128::MAX,
            final(self).grand_total() == old(self).grand_total(),
    {
        proof {
            if self.m().contains_key((a, c)) {
                lemma_as_map_contains(self.entries@, (a, c));
                let i = choose|i: int|
                    0 <= i < self.entries@.len() && key_of(self.entries@[i]) == (a, c);
                lemma_as_map_index(self.entries@, i);
                lemma_sum_ge_entry(self.entries@, i);
            }
        }
        let free = self.free_balance(a, c);
        if free < amount {
            return Err(Error::InsufficientBalance);
        }
        let reserved = self.reserved_balance(a, c);
        self.put(a, c, Position { free: free - amount, reserved: reserved + amount });
        Ok(())
    }

    /// Release up to `amount` of `a`'s reserved balance in `c` back to its
    /// free balance; best-effort, returns the amount actually released.
    pub fn unreserve(&mut self, a: AccountId, c: CurrencyId, amount: Balance) -> (released:
        Balance)
        requires
            old(self).wf(),
        ensures
            final(self).wf(),
            released == if old(self).reserved_of(a, c) < amount {
                old(self).reserved_of(a, c)
            } else {
                amount
            },
            final(self).m() == old(self).m().insert(
                (a, c),
                Position {
                    free: (old(self).free_of(a, c) + released) as Balance,
                    reserved: (old(self).reserved_of(a, c) - released) as Balance,
                },
            ),
            old(self).free_of(a, c) + released <= u128::MAX,
            final(self).grand_total() == old(self).grand_total(),
    {
        proof {
            if self.m().contains_key((a, c)) {
                lemma_as_map_contains(self.entries@, (a, c));
                let i = choose|i: int|
                    0 <= i < self.entries@.len() && key_of(self.entries@[i]) == (a, c);
                lemma_as_map_index(self.entries@, i);
                lemma_sum_ge_entry(self.entries@, i);
            }
        }
        let free = self.free_balance(a, c);
        let reserved = self.reserved_balance(a, c);
        let released = if reserved < amount {
            reserved
        } else {
            amount
        };
        self.put(a, c, Position { free: free + released, reserved: reserved - released });
        released
    }

    /// Transfer `amount` of free balance in `c` from `from` to `to`. Fails
    /// if and only if `from`'s free balance is below `amount`. A transfer
    /// to oneself leaves the ledger unchanged.
    pub fn transfer(
        &mut self,
        c: CurrencyId,
        from: AccountId,
        to: AccountId,
        amount: Balance,
    ) -> (r: Result<(), Error>)
        requires
            old(self).wf(),
        ensures
            final(self).wf(),
            r is Ok <==> old(self).free_of(from, c) >= amount,
            r is Ok && from == to ==> final(self).m() == old(self).m(),
            r is Ok && from != to ==> final(self).m() == old(self).m().insert(
                (from, c),
                Position {
                    free: (old(self).free_of(from, c) - amount) as Balance,
                    reserved: old(self).reserved_of(from, c),
                },
            ).insert(
                (to, c),
                Position {
                    free: (old(self).free_of(to, c) + amount) as Balance,
                    reserved: old(self).reserved_of(to, c),
                },
            ),
            r is Err ==> *final(self) == *old(self) && r == Err::<(), Error>(Error::InsufficientBalance),
            r is Ok && from != to ==> old(self).free_of(to, c) + amount <= u128::MAX,
            final(self).grand_total() == old(self).grand_total(),
    {
        let free_from = self.free_balance(from, c);
        if free_from < amount {
            return Err(Error::InsufficientBalance);
        }
        if from == to {
            return Ok(());
        }
        proof {
            lemma_as_map_contains(self.entries@, (from, c));
            lemma_as_map_contains(self.entries@, (to, c));
            if self.m().contains_key((from, c)) {
                let i = choose|i: int|
                    0 <= i < self.entries@.len() && key_of(self.entries@[i]) == (from, c);
                lemma_as_map_index(self.entries@, i);
                lemma_sum_ge_entry(self.entries@, i);
                if self.m().contains_key((to, c)) {
                    let j = choose|j: int|
                        0 <= j < self.entries@.len() && key_of(self.entries@[j]) == (to, c);
                    lemma_as_map_index(self.entries@, j);
                    if i < j {
                        lemma_sum_ge_two_entries(self.entries@, i, j);
                    } else {
                        lemma_sum_ge_two_entries(self.entries@, j, i);
                    }
                }
            }
        }
        let reserved_from = self.reserved_balance(from, c);
        let free_to = self.free_balance(to, c);
        let reserved_to = self.reserved_balance(to, c);
        self.put(from, c, Position { free: free_from - amount, reserved: reserved_from });
        self.put(to, c, Position { free: free_to + amount, reserved: reserved_to });
        Ok(())
    }
}

} // verus!
