//! The asset escrow: per-account free and reserved quantities of asset
//! tokens, and the token registry that records each token's royalty flag
//! and total issuance.
//!
//! Each token's issuance is the sum of all accounts' free and reserved
//! quantities of it, and is itself a `u64`; moving quantities between
//! accounts can therefore never overflow.

use vstd::prelude::*;
use crate::types::{AccountId, ClassId, Error, Quantity, TokenId};

verus! {

/// One holding: the free and reserved quantity of one token held by one
/// account.
#[derive(Clone, Copy, Debug, PartialEq, Eq, Structural)]
pub struct Holding {
    pub free: Quantity,
    pub reserved: Quantity,
}

/// What the registry records of one token: whether it is royalty-bearing,
/// and its total issuance.
#[derive(Clone, Copy, Debug, PartialEq, Eq, Structural)]
pub struct TokenInfo {
    pub royalty: bool,
    pub issuance: Quantity,
}

#[derive(Clone, Copy, Debug, PartialEq, Eq, Structural)]
struct HoldEntry {
    account: AccountId,
    class: ClassId,
    token: TokenId,
    hold: Holding,
}

#[derive(Clone, Copy, Debug, PartialEq, Eq, Structural)]
struct TokenEntry {
    class: ClassId,
    token: TokenId,
    info: TokenInfo,
}

/// The escrow: an association list of holdings and one of registered
/// tokens, each with pairwise distinct keys.
pub struct Escrow {
    holds: Vec<HoldEntry>,
    tokens: Vec<TokenEntry>,
}

spec fn hkey(e: HoldEntry) -> (AccountId, ClassId, TokenId) {
    (e.account, e.class, e.token)
}

spec fn tkey(e: TokenEntry) -> (ClassId, TokenId) {
    (e.class, e.token)
}

spec fn holds_as_map(s: Seq<HoldEntry>) -> Map<(AccountId, ClassId, TokenId), Holding>
    decreases s.len(),
{
    if s.len() == 0 {
        Map::empty()
    } else {
        holds_as_map(s.drop_last()).insert(hkey(s.last()), s.last().hold)
    }
}

spec fn tokens_as_map(s: Seq<TokenEntry>) -> Map<(ClassId, TokenId), TokenInfo>
    decreases s.len(),
{
    if s.len() == 0 {
        Map::empty()
    } else {
        tokens_as_map(s.drop_last()).insert(tkey(s.last()), s.last().info)
    }
}

spec fn hkeys_unique(s: Seq<HoldEntry>) -> bool {
    forall|i: int, j: int| 0 <= i < j < s.len() ==> hkey(s[i]) != hkey(s[j])
}

spec fn tkeys_unique(s: Seq<TokenEntry>) -> bool {
    forall|i: int, j: int| 0 <= i < j < s.len() ==> tkey(s[i]) != tkey(s[j])
}

/// The quantity of token (`cl`, `t`) that entry `e` accounts for.
spec fn hold_contrib(e: HoldEntry, cl: ClassId, t: TokenId) -> int {
    if e.class == cl && e.token == t {
        e.hold.free + e.hold.reserved
    } else {
        0
    }
}

/// The total quantity of token (`cl`, `t`) across all holdings.
spec fn tok_sum(s: Seq<HoldEntry>, cl: ClassId, t: TokenId) -> int
    decreases s.len(),
{
    if s.len() == 0 {
        0
    } else {
        tok_sum(s.drop_last(), cl, t) + hold_contrib(s.last(), cl, t)
    }
}

proof fn lemma_holds_map_contains(s: Seq<HoldEntry>, k: (AccountId, ClassId, TokenId))
    ensures
        holds_as_map(s).contains_key(k) <==> exists|i: int| 0 <= i < s.len() && hkey(s[i]) == k,
    decreases s.len(),
{
    if s.len() > 0 {
        lemma_holds_map_contains(s.drop_last(), k);
        if holds_as_map(s).contains_key(k) {
            if hkey(s.last()) == k {
                assert(hkey(s[s.len() - 1]) == k);
            } else {
                let i = choose|i: int|
                    0 <= i < s.drop_last().len() && hkey(s.drop_last()[i]) == k;
                assert(hkey(s[i]) == k);
            }
        }
        if exists|i: int| 0 <= i < s.len() && hkey(s[i]) == k {
            let i = choose|i: int| 0 <= i < s.len() && hkey(s[i]) == k;
            if i < s.len() - 1 {
                assert(hkey(s.drop_last()[i]) == k);
            }
        }
    }
}

proof fn lemma_holds_map_index(s: Seq<HoldEntry>, i: int)
    requires
        hkeys_unique(s),
        0 <= i < s.len(),
    ensures
        holds_as_map(s).contains_key(hkey(s[i])),
        holds_as_map(s)[hkey(s[i])] == s[i].hold,
    decreases s.len(),
{
    if i == s.len() - 1 {
    } else {
        assert(hkeys_unique(s.drop_last()));
        assert(s.drop_last()[i] == s[i]);
        lemma_holds_map_index(s.drop_last(), i);
        assert(hkey(s[s.len() - 1]) != hkey(s[i]));
    }
}

proof fn lemma_holds_map_update(s: Seq<HoldEntry>, i: int, e: HoldEntry)
    requires
        hkeys_unique(s),
        0 <= i < s.len(),
        hkey(e) == hkey(s[i]),
    ensures
        holds_as_map(s.update(i, e)) == holds_as_map(s).insert(hkey(e), e.hold),
        hkeys_unique(s.update(i, e)),
    decreases s.len(),
{
    let t = s.update(i, e);
    assert(forall|x: int, y: int| 0 <= x < y < t.len() ==> hkey(t[x]) != hkey(t[y]));
    if i == s.len() - 1 {
        assert(t.drop_last() =~= s.drop_last());
        assert(t.last() == e);
        assert(holds_as_map(t) =~= holds_as_map(s).insert(hkey(e), e.hold));
    } else {
        assert(hkeys_unique(s.drop_last()));
        assert(s.drop_last()[i] == s[i]);
        lemma_holds_map_update(s.drop_last(), i, e);
        assert(t.drop_last() =~= s.drop_last().update(i, e));
        assert(t.last() == s.last());
        assert(hkey(s.last()) != hkey(e));
        assert(holds_as_map(t) =~= holds_as_map(s).insert(hkey(e), e.hold));
    }
}

proof fn lemma_holds_map_push(s: Seq<HoldEntry>, e: HoldEntry)
    requires
        hkeys_unique(s),
        forall|i: int| 0 <= i < s.len() ==> hkey(s[i]) != hkey(e),
    ensures
        holds_as_map(s.push(e)) == holds_as_map(s).insert(hkey(e), e.hold),
        hkeys_unique(s.push(e)),
{
    assert(s.push(e).drop_last() =~= s);
    assert(s.push(e).last() == e);
}

proof fn lemma_tokens_map_contains(s: Seq<TokenEntry>, k: (ClassId, TokenId))
    ensures
        tokens_as_map(s).contains_key(k) <==> exists|i: int| 0 <= i < s.len() && tkey(s[i]) == k,
    decreases s.len(),
{
    if s.len() > 0 {
        lemma_tokens_map_contains(s.drop_last(), k);
        if tokens_as_map(s).contains_key(k) {
            if tkey(s.last()) == k {
                assert(tkey(s[s.len() - 1]) == k);
            } else {
                let i = choose|i: int|
                    0 <= i < s.drop_last().len() && tkey(s.drop_last()[i]) == k;
                assert(tkey(s[i]) == k);
            }
        }
        if exists|i: int| 0 <= i < s.len() && tkey(s[i]) == k {
            let i = choose|i: int| 0 <= i < s.len() && tkey(s[i]) == k;
            if i < s.len() - 1 {
                assert(tkey(s.drop_last()[i]) == k);
            }
        }
    }
}

proof fn lemma_tokens_map_index(s: Seq<TokenEntry>, i: int)
    requires
        tkeys_unique(s),
        0 <= i < s.len(),
    ensures
        tokens_as_map(s).contains_key(tkey(s[i])),
        tokens_as_map(s)[tkey(s[i])] == s[i].info,
    decreases s.len(),
{
    if i == s.len() - 1 {
    } else {
        assert(tkeys_unique(s.drop_last()));
        assert(s.drop_last()[i] == s[i]);
        lemma_tokens_map_index(s.drop_last(), i);
        assert(tkey(s[s.len() - 1]) != tkey(s[i]));
    }
}

proof fn lemma_tokens_map_update(s: Seq<TokenEntry>, i: int, e: TokenEntry)
    requires
        tkeys_unique(s),
        0 <= i < s.len(),
        tkey(e) == tkey(s[i]),
    ensures
        tokens_as_map(s.update(i, e)) == tokens_as_map(s).insert(tkey(e), e.info),
        tkeys_unique(s.update(i, e)),
    decreases s.len(),
{
    let t = s.update(i, e);
    assert(forall|x: int, y: int| 0 <= x < y < t.len() ==> tkey(t[x]) != tkey(t[y]));
    if i == s.len() - 1 {
        assert(t.drop_last() =~= s.drop_last());
        assert(t.last() == e);
        assert(tokens_as_map(t) =~= tokens_as_map(s).insert(tkey(e), e.info));
    } else {
        assert(tkeys_unique(s.drop_last()));
        assert(s.drop_last()[i] == s[i]);
        lemma_tokens_map_update(s.drop_last(), i, e);
        assert(t.drop_last() =~= s.drop_last().update(i, e));
        assert(t.last() == s.last());
        assert(tkey(s.last()) != tkey(e));
        assert(tokens_as_map(t) =~= tokens_as_map(s).insert(tkey(e), e.info));
    }
}

proof fn lemma_tokens_map_push(s: Seq<TokenEntry>, e: TokenEntry)
    requires
        tkeys_unique(s),
        forall|i: int| 0 <= i < s.len() ==> tkey(s[i]) != tkey(e),
    ensures
        tokens_as_map(s.push(e)) == tokens_as_map(s).insert(tkey(e), e.info),
        tkeys_unique(s.push(e)),
{
    assert(s.push(e).drop_last() =~= s);
    assert(s.push(e).last() == e);
}

proof fn lemma_tok_sum_update(s: Seq<HoldEntry>, i: int, e: HoldEntry, cl: ClassId, t: TokenId)
    requires
        0 <= i < s.len(),
    ensures
        tok_sum(s.update(i, e), cl, t) == tok_sum(s, cl, t) - hold_contrib(s[i], cl, t)
            + hold_contrib(e, cl, t),
    decreases s.len(),
{
    let u = s.update(i, e);
    if i == s.len() - 1 {
        assert(u.drop_last() =~= s.drop_last());
    } else {
        lemma_tok_sum_update(s.drop_last(), i, e, cl, t);
        assert(u.drop_last() =~= s.drop_last().update(i, e));
        assert(u.last() == s.last());
    }
}

proof fn lemma_tok_sum_push(s: Seq<HoldEntry>, e: HoldEntry, cl: ClassId, t: TokenId)
    ensures
        tok_sum(s.push(e), cl, t) == tok_sum(s, cl, t) + hold_contrib(e, cl, t),
{
    assert(s.push(e).drop_last() =~= s);
}

proof fn lemma_tok_sum_nonneg(s: Seq<HoldEntry>, cl: ClassId, t: TokenId)
    ensures
        tok_sum(s, cl, t) >= 0,
    decreases s.len(),
{
    if s.len() > 0 {
        lemma_tok_sum_nonneg(s.drop_last(), cl, t);
    }
}

proof fn lemma_tok_sum_ge_entry(s: Seq<HoldEntry>, i: int, cl: ClassId, t: TokenId)
    requires
        0 <= i < s.len(),
    ensures
        tok_sum(s, cl, t) >= hold_contrib(s[i], cl, t),
    decreases s.len(),
{
    if i == s.len() - 1 {
        lemma_tok_sum_nonneg(s.drop_last(), cl, t);
    } else {
        lemma_tok_sum_ge_entry(s.drop_last(), i, cl, t);
        assert(s.drop_last()[i] == s[i]);
    }
}

proof fn lemma_tok_sum_absent(s: Seq<HoldEntry>, cl: ClassId, t: TokenId)
    requires
        forall|i: int| 0 <= i < s.len() ==> !(s[i].class == cl && s[i].token == t),
    ensures
        tok_sum(s, cl, t) == 0,
    decreases s.len(),
{
    if s.len() > 0 {
        assert(forall|i: int|
            0 <= i < s.drop_last().len() ==> s.drop_last()[i] == s[i]);
        lemma_tok_sum_absent(s.drop_last(), cl, t);
    }
}

proof fn lemma_tok_sum_ge_two_entries(s: Seq<HoldEntry>, i: int, j: int, cl: ClassId, t: TokenId)
    requires
        0 <= i < j < s.len(),
    ensures
        tok_sum(s, cl, t) >= hold_contrib(s[i], cl, t) + hold_contrib(s[j], cl, t),
    decreases s.len(),
{
    if j == s.len() - 1 {
        lemma_tok_sum_ge_entry(s.drop_last(), i, cl, t);
        assert(s.drop_last()[i] == s[i]);
    } else {
        lemma_tok_sum_ge_two_entries(s.drop_last(), i, j, cl, t);
        assert(s.drop_last()[i] == s[i]);
        assert(s.drop_last()[j] == s[j]);
    }
}

/// In a well-formed escrow, every holding's amount is bounded by its
/// token's issuance.
proof fn lemma_hold_bounded_by_issuance(esc: &Escrow, i: int)
    requires
        esc.wf(),
        0 <= i < esc.holds@.len(),
    ensures
        esc.holds@[i].hold.free + esc.holds@[i].hold.reserved <= esc.issuance_of(
            esc.holds@[i].class,
            esc.holds@[i].token,
        ),
        esc.issuance_of(esc.holds@[i].class, esc.holds@[i].token) == tok_sum(
            esc.holds@,
            esc.holds@[i].class,
            esc.holds@[i].token,
        ),
{
    let cl = esc.holds@[i].class;
    let t = esc.holds@[i].token;
    assert(esc.tokens_m().contains_key((cl, t)));
    lemma_tokens_map_contains(esc.tokens@, (cl, t));
    let k = choose|k: int| 0 <= k < esc.tokens@.len() && tkey(esc.tokens@[k]) == (cl, t);
    lemma_tokens_map_index(esc.tokens@, k);
    assert(esc.tokens@[k].info.issuance == tok_sum(
        esc.holds@,
        esc.tokens@[k].class,
        esc.tokens@[k].token,
    ));
    lemma_tok_sum_ge_entry(esc.holds@, i, cl, t);
}

impl Escrow {
    /// The holdings as a map from (account, class, token) to holding.
    pub closed spec fn holds_m(&self) -> Map<(AccountId, ClassId, TokenId), Holding> {
        holds_as_map(self.holds@)
    }

    /// The token registry as a map from (class, token) to its record.
    pub closed spec fn tokens_m(&self) -> Map<(ClassId, TokenId), TokenInfo> {
        tokens_as_map(self.tokens@)
    }

    /// Well-formed: keys are pairwise distinct, every holding's token is
    /// registered, and every registered token's issuance is the sum of all
    /// holdings of it.
    pub closed spec fn wf(&self) -> bool {
        &&& hkeys_unique(self.holds@)
        &&& tkeys_unique(self.tokens@)
        &&& forall|i: int|
            0 <= i < self.holds@.len() ==> #[trigger] self.tokens_m().contains_key(
                (self.holds@[i].class, self.holds@[i].token),
            )
        &&& forall|i: int|
            0 <= i < self.tokens@.len() ==> #[trigger] self.tokens@[i].info.issuance == tok_sum(
                self.holds@,
                self.tokens@[i].class,
                self.tokens@[i].token,
            )
    }

    /// The free quantity of token (`cl`, `t`) held by `a`.
    pub open spec fn free_of(&self, a: AccountId, cl: ClassId, t: TokenId) -> Quantity {
        if self.holds_m().contains_key((a, cl, t)) {
            self.holds_m()[(a, cl, t)].free
        } else {
            0
        }
    }

    /// The reserved quantity of token (`cl`, `t`) held by `a`.
    pub open spec fn reserved_of(&self, a: AccountId, cl: ClassId, t: TokenId) -> Quantity {
        if self.holds_m().contains_key((a, cl, t)) {
            self.holds_m()[(a, cl, t)].reserved
        } else {
            0
        }
    }

    /// Whether token (`cl`, `t`) is registered.
    pub open spec fn has_token(&self, cl: ClassId, t: TokenId) -> bool {
        self.tokens_m().contains_key((cl, t))
    }

    /// Whether token (`cl`, `t`) is royalty-bearing; false for an
    /// unregistered token.
    pub open spec fn royalty_of(&self, cl: ClassId, t: TokenId) -> bool {
        self.has_token(cl, t) && self.tokens_m()[(cl, t)].royalty
    }

    /// The issuance of token (`cl`, `t`); zero for an unregistered token.
    pub open spec fn issuance_of(&self, cl: ClassId, t: TokenId) -> Quantity {
        if self.has_token(cl, t) {
            self.tokens_m()[(cl, t)].issuance
        } else {
            0
        }
    }

    /// An empty escrow.
    pub fn new() -> (r: Escrow)
        ensures
            r.wf(),
            r.holds_m() == Map::<(AccountId, ClassId, TokenId), Holding>::empty(),
            r.tokens_m() == Map::<(ClassId, TokenId), TokenInfo>::empty(),
    {
        Escrow { holds: Vec::new(), tokens: Vec::new() }
    }

    fn find_hold(&self, a: AccountId, cl: ClassId, t: TokenId) -> (r: Option<usize>)
        requires
            hkeys_unique(self.holds@),
        ensures
            match r {
                Some(i) => {
                    &&& i < self.holds@.len()
                    &&& hkey(self.holds@[i as int]) == (a, cl, t)
                    &&& self.holds_m().contains_key((a, cl, t))
                    &&& self.holds_m()[(a, cl, t)] == self.holds@[i as int].hold
                },
                None => !self.holds_m().contains_key((a, cl, t)),
            },
    {
        let n = self.holds.len();
        let mut i: usize = 0;
        while i < n
            invariant
                n == self.holds@.len(),
                i <= n,
                hkeys_unique(self.holds@),
                forall|j: int| 0 <= j < i ==> hkey(self.holds@[j]) != (a, cl, t),
            decreases n - i,
        {
            if self.holds[i].account == a && self.holds[i].class == cl && self.holds[i].token == t {
                proof {
                    lemma_holds_map_index(self.holds@, i as int);
                }
                return Some(i);
            }
            i = i + 1;
        }
        proof {
            lemma_holds_map_contains(self.holds@, (a, cl, t));
        }
        None
    }

    fn find_token(&self, cl: ClassId, t: TokenId) -> (r: Option<usize>)
        requires
            tkeys_unique(self.tokens@),
        ensures
            match r {
                Some(i) => {
                    &&& i < self.tokens@.len()
                    &&& tkey(self.tokens@[i as int]) == (cl, t)
                    &&& self.tokens_m().contains_key((cl, t))
                    &&& self.tokens_m()[(cl, t)] == self.tokens@[i as int].info
                },
                None => !self.tokens_m().contains_key((cl, t)),
            },
    {
        let n = self.tokens.len();
        let mut i: usize = 0;
        while i < n
            invariant
                n == self.tokens@.len(),
                i <= n,
                tkeys_unique(self.tokens@),
                forall|j: int| 0 <= j < i ==> tkey(self.tokens@[j]) != (cl, t),
            decreases n - i,
        {
            if self.tokens[i].class == cl && self.tokens[i].token == t {
                proof {
                    lemma_tokens_map_index(self.tokens@, i as int);
                }
                return Some(i);
            }
            i = i + 1;
        }
        proof {
            lemma_tokens_map_contains(self.tokens@, (cl, t));
        }
        None
    }

    /// The free quantity of token (`cl`, `t`) held by `a`.
    pub fn free_quantity(&self, a: AccountId, cl: ClassId, t: TokenId) -> (r: Quantity)
        requires
            self.wf(),
        ensures
            r == self.free_of(a, cl, t),
    {
        match self.find_hold(a, cl, t) {
            Some(i) => self.holds[i].hold.free,
            None => 0,
        }
    }

    /// The reserved quantity of token (`cl`, `t`) held by `a`.
    pub fn reserved_quantity(&self, a: AccountId, cl: ClassId, t: TokenId) -> (r: Quantity)
        requires
            self.wf(),
        ensures
            r == self.reserved_of(a, cl, t),
    {
        match self.find_hold(a, cl, t) {
            Some(i) => self.holds[i].hold.reserved,
            None => 0,
        }
    }

    /// Whether token (`cl`, `t`) is royalty-bearing; the escrow does not
    /// know unregistered tokens.
    pub fn token_charged_royalty(&self, cl: ClassId, t: TokenId) -> (r: Result<bool, Error>)
        requires
            self.wf(),
        ensures
            r is Ok <==> self.has_token(cl, t),
            r is Ok ==> r == Ok::<bool, Error>(self.royalty_of(cl, t)),
            r is Err ==> r == Err::<bool, Error>(Error::TokenIdNotFound),
    {
        match self.find_token(cl, t) {
            Some(i) => Ok(self.tokens[i].info.royalty),
            None => Err(Error::TokenIdNotFound),
        }
    }

    /// Store `h` as the holding of (`a`, `cl`, `t`). The token must be
    /// registered and the holding's amount must not change (the issuance
    /// stays in sync by itself).
    fn put_hold_same_amount(&mut self, a: AccountId, cl: ClassId, t: TokenId, h: Holding)
        requires
            old(self).wf(),
            old(self).holds_m().contains_key((a, cl, t)),
            h.free + h.reserved == old(self).holds_m()[(a, cl, t)].free + old(self).holds_m()[(a, cl, t)].reserved,
        ensures
            final(self).wf(),
            final(self).holds_m() == old(self).holds_m().insert((a, cl, t), h),
            final(self).tokens_m() == old(self).tokens_m(),
    {
        let ghost s0 = self.holds@;
        let i = match self.find_hold(a, cl, t) {
            Some(i) => i,
            None => {
                proof {
                    assert(false);
                }
                return ;
            },
        };
        let e = HoldEntry { account: a, class: cl, token: t, hold: h };
        proof {
            lemma_holds_map_update(s0, i as int, e);
            assert forall|c2: ClassId, t2: TokenId|
                tok_sum(s0.update(i as int, e), c2, t2) == tok_sum(s0, c2, t2) by {
                lemma_tok_sum_update(s0, i as int, e, c2, t2);
            }
        }
        self.holds[i] = e;
        proof {
            assert forall|j: int|
                0 <= j < self.tokens@.len() implies #[trigger] self.tokens@[j].info.issuance
                == tok_sum(self.holds@, self.tokens@[j].class, self.tokens@[j].token) by {
                assert(tok_sum(self.holds@, self.tokens@[j].class, self.tokens@[j].token)
                    == tok_sum(s0, self.tokens@[j].class, self.tokens@[j].token));
            }
            assert forall|j: int|
                0 <= j < self.holds@.len() implies #[trigger] self.tokens_m().contains_key(
                (self.holds@[j].class, self.holds@[j].token),
            ) by {
                assert(old(self).tokens_m().contains_key(
                    (old(self).holds@[j].class, old(self).holds@[j].token),
                ));
                assert(self.holds@[j].class == s0[j].class && self.holds@[j].token == s0[j].token);
            }
        }
    }

    /// Move `qty` of `who`'s free quantity of token (`cl`, `t`) to its
    /// reserved quantity. Fails if and only if the free quantity is below
    /// `qty`. Reserving a zero quantity changes nothing.
    pub fn reserve_tokens(
        &mut self,
        who: AccountId,
        cl: ClassId,
        t: TokenId,
        qty: Quantity,
    ) -> (r: Result<(), Error>)
        requires
            old(self).wf(),
        ensures
            final(self).wf(),
            r is Ok <==> old(self).free_of(who, cl, t) >= qty,
            r is Ok && qty > 0 ==> final(self).holds_m() == old(self).holds_m().insert(
                (who, cl, t),
                Holding {
                    free: (old(self).free_of(who, cl, t) - qty) as Quantity,
                    reserved: (old(self).reserved_of(who, cl, t) + qty) as Quantity,
                },
            ),
            r is Ok && qty == 0 ==> *final(self) == *old(self),
            r is Ok ==> old(self).reserved_of(who, cl, t) + qty <= u64::MAX,
            r is Err ==> *final(self) == *old(self) && r == Err::<(), Error>(
                Error::InsufficientQuantity,
            ),
            final(self).tokens_m() == old(self).tokens_m(),
    {
        if qty == 0 {
            proof {
                if self.holds_m().contains_key((who, cl, t)) {
                    lemma_holds_map_contains(self.holds@, (who, cl, t));
                    let i = choose|i: int|
                        0 <= i < self.holds@.len() && hkey(self.holds@[i]) == (who, cl, t);
                    lemma_holds_map_index(self.holds@, i);
                    lemma_hold_bounded_by_issuance(self, i);
                }
            }
            return Ok(());
        }
        let i = match self.find_hold(who, cl, t) {
            Some(i) => i,
            None => {
                return Err(Error::InsufficientQuantity);
            },
        };
        let h = self.holds[i].hold;
        if h.free < qty {
            return Err(Error::InsufficientQuantity);
        }
        proof {
            lemma_hold_bounded_by_issuance(self, i as int);
        }
        self.put_hold_same_amount(
            who,
            cl,
            t,
            Holding { free: h.free - qty, reserved: h.reserved + qty },
        );
        Ok(())
    }

    /// Release up to `qty` of `who`'s reserved quantity of token
    /// (`cl`, `t`) back to its free quantity; best-effort, returns the
    /// quantity actually released.
    pub fn unreserve_tokens(
        &mut self,
        who: AccountId,
        cl: ClassId,
        t: TokenId,
        qty: Quantity,
    ) -> (released: Quantity)
        requires
            old(self).wf(),
        ensures
            final(self).wf(),
            released == if old(self).reserved_of(who, cl, t) < qty {
                old(self).reserved_of(who, cl, t)
            } else {
                qty
            },
            old(self).holds_m().contains_key((who, cl, t)) ==> final(self).holds_m() == old(
                self,
            ).holds_m().insert(
                (who, cl, t),
                Holding {
                    free: (old(self).free_of(who, cl, t) + released) as Quantity,
                    reserved: (old(self).reserved_of(who, cl, t) - released) as Quantity,
                },
            ),
            !old(self).holds_m().contains_key((who, cl, t)) ==> *final(self) == *old(self),
            old(self).free_of(who, cl, t) + released <= u64::MAX,
            final(self).tokens_m() == old(self).tokens_m(),
    {
        let i = match self.find_hold(who, cl, t) {
            Some(i) => i,
            None => {
                return 0;
            },
        };
        let h = self.holds[i].hold;
        let released = if h.reserved < qty {
            h.reserved
        } else {
            qty
        };
        proof {
            lemma_hold_bounded_by_issuance(self, i as int);
        }
        self.put_hold_same_amount(
            who,
            cl,
            t,
            Holding { free: h.free + released, reserved: h.reserved - released },
        );
        released
    }

    /// Transfer `qty` of free quantity of token (`cl`, `t`) from `from` to
    /// `to`. Fails if and only if `from`'s free quantity is below `qty`.
    /// A transfer to oneself, or of a zero quantity, changes nothing.
    pub fn transfer(
        &mut self,
        from: AccountId,
        to: AccountId,
        cl: ClassId,
        t: TokenId,
        qty: Quantity,
    ) -> (r: Result<(), Error>)
        requires
            old(self).wf(),
        ensures
            final(self).wf(),
            r is Ok <==> old(self).free_of(from, cl, t) >= qty,
            r is Ok && (from == to || qty == 0) ==> *final(self) == *old(self),
            r is Ok && from != to && qty > 0 ==> final(self).holds_m() == old(
                self,
            ).holds_m().insert(
                (from, cl, t),
                Holding {
                    free: (old(self).free_of(from, cl, t) - qty) as Quantity,
                    reserved: old(self).reserved_of(from, cl, t),
                },
            ).insert(
                (to, cl, t),
                Holding {
                    free: (old(self).free_of(to, cl, t) + qty) as Quantity,
                    reserved: old(self).reserved_of(to, cl, t),
                },
            ),
            r is Err ==> *final(self) == *old(self) && r == Err::<(), Error>(
                Error::InsufficientQuantity,
            ),
            r is Ok && from != to && qty > 0 ==> old(self).free_of(to, cl, t) + qty <= u64::MAX,
            final(self).tokens_m() == old(self).tokens_m(),
    {
        if qty == 0 {
            return Ok(());
        }
        let i = match self.find_hold(from, cl, t) {
            Some(i) => i,
            None => {
                return Err(Error::InsufficientQuantity);
            },
        };
        let hf = self.holds[i].hold;
        if hf.free < qty {
            return Err(Error::InsufficientQuantity);
        }
        if from == to {
            return Ok(());
        }
        let ghost s0 = self.holds@;
        let ghost m0 = self.holds_m();
        let ghost toks0 = self.tokens_m();
        let jopt = self.find_hold(to, cl, t);
        proof {
            lemma_hold_bounded_by_issuance(self, i as int);
            if let Some(j) = jopt {
                assert(hkey(s0[i as int]) != hkey(s0[j as int]));
                if (i as int) < (j as int) {
                    lemma_tok_sum_ge_two_entries(s0, i as int, j as int, cl, t);
                } else {
                    lemma_tok_sum_ge_two_entries(s0, j as int, i as int, cl, t);
                }
            }
        }
        let e_from = HoldEntry {
            account: from,
            class: cl,
            token: t,
            hold: Holding { free: hf.free - qty, reserved: hf.reserved },
        };
        proof {
            lemma_holds_map_update(s0, i as int, e_from);
            assert forall|c2: ClassId, t2: TokenId|
                tok_sum(s0.update(i as int, e_from), c2, t2) == tok_sum(s0, c2, t2) - (
                if c2 == cl && t2 == t {
                    qty as int
                } else {
                    0
                }) by {
                lemma_tok_sum_update(s0, i as int, e_from, c2, t2);
            }
        }
        self.holds[i] = e_from;
        let ghost s1 = self.holds@;
        // The recipient's holding: it may not exist yet, and its new
        // quantity stays within the token's issuance.
        match jopt {
            Some(j) => {
                let ht = self.holds[j].hold;
                proof {
                    assert(s1[j as int] == s0[j as int]);
                }
                let e_to = HoldEntry {
                    account: to,
                    class: cl,
                    token: t,
                    hold: Holding { free: ht.free + qty, reserved: ht.reserved },
                };
                proof {
                    lemma_holds_map_update(s1, j as int, e_to);
                    assert forall|c2: ClassId, t2: TokenId|
                        tok_sum(s1.update(j as int, e_to), c2, t2) == tok_sum(s1, c2, t2) + (
                        if c2 == cl && t2 == t {
                            qty as int
                        } else {
                            0
                        }) by {
                        lemma_tok_sum_update(s1, j as int, e_to, c2, t2);
                    }
                }
                self.holds[j] = e_to;
            },
            None => {
                let e_to = HoldEntry {
                    account: to,
                    class: cl,
                    token: t,
                    hold: Holding { free: qty, reserved: 0 },
                };
                proof {
                    lemma_holds_map_contains(s1, (to, cl, t));
                    lemma_holds_map_push(s1, e_to);
                    assert forall|c2: ClassId, t2: TokenId|
                        tok_sum(s1.push(e_to), c2, t2) == tok_sum(s1, c2, t2) + (
                        if c2 == cl && t2 == t {
                            qty as int
                        } else {
                            0
                        }) by {
                        lemma_tok_sum_push(s1, e_to, c2, t2);
                    }
                }
                self.holds.push(e_to);
            },
        }
        proof {
            assert forall|j: int|
                0 <= j < self.tokens@.len() implies #[trigger] self.tokens@[j].info.issuance
                == tok_sum(self.holds@, self.tokens@[j].class, self.tokens@[j].token) by {
                assert(tok_sum(self.holds@, self.tokens@[j].class, self.tokens@[j].token)
                    == tok_sum(s0, self.tokens@[j].class, self.tokens@[j].token));
                assert(old(self).tokens@[j].info.issuance == tok_sum(
                    old(self).holds@,
                    old(self).tokens@[j].class,
                    old(self).tokens@[j].token,
                ));
            }
            assert forall|j: int|
                0 <= j < self.holds@.len() implies #[trigger] self.tokens_m().contains_key(
                (self.holds@[j].class, self.holds@[j].token),
            ) by {
                if j < s0.len() {
                    assert(self.holds@[j].class == s0[j].class && self.holds@[j].token
                        == s0[j].token);
                    assert(old(self).tokens_m().contains_key(
                        (old(self).holds@[j].class, old(self).holds@[j].token),
                    ));
                } else {
                    assert(self.holds@[j].class == cl && self.holds@[j].token == t);
                    assert(old(self).tokens_m().contains_key(
                        (old(self).holds@[i as int].class, old(self).holds@[i as int].token),
                    ));
                }
            }
            assert(final(self).holds_m() =~= m0.insert(
                (from, cl, t),
                Holding {
                    free: (hf.free - qty) as Quantity,
                    reserved: hf.reserved,
                },
            ).insert(
                (to, cl, t),
                Holding {
                    free: (old(self).free_of(to, cl, t) + qty) as Quantity,
                    reserved: old(self).reserved_of(to, cl, t),
                },
            ));
        }
        Ok(())
    }

    /// Register or replenish token (`cl`, `t`): add `qty` to `owner`'s free
    /// quantity and to the token's issuance. The royalty flag is set on
    /// first registration and kept unchanged afterwards. Fails if and only
    /// if the issuance would exceed `u64::MAX`.
    pub fn mint(
        &mut self,
        owner: AccountId,
        cl: ClassId,
        t: TokenId,
        qty: Quantity,
        royalty: bool,
    ) -> (r: Result<(), Error>)
        requires
            old(self).wf(),
        ensures
            final(self).wf(),
            r is Ok <==> old(self).issuance_of(cl, t) + qty <= u64::MAX,
            r is Ok ==> final(self).holds_m() == old(self).holds_m().insert(
                (owner, cl, t),
                Holding {
                    free: (old(self).free_of(owner, cl, t) + qty) as Quantity,
                    reserved: old(self).reserved_of(owner, cl, t),
                },
            ),
            r is Ok ==> final(self).tokens_m() == old(self).tokens_m().insert(
                (cl, t),
                TokenInfo {
                    royalty: if old(self).has_token(cl, t) {
                        old(self).royalty_of(cl, t)
                    } else {
                        royalty
                    },
                    issuance: (old(self).issuance_of(cl, t) + qty) as Quantity,
                },
            ),
            r is Ok ==> old(self).free_of(owner, cl, t) + qty <= u64::MAX,
            r is Err ==> *final(self) == *old(self) && r == Err::<(), Error>(
                Error::ArithmeticOverflow,
            ),
    {
        let ghost s0 = self.holds@;
        let ghost toks0 = self.tokens@;
        // First bring the registry entry up to date.
        match self.find_token(cl, t) {
            Some(j) => {
                let info = self.tokens[j].info;
                if qty > u64::MAX - info.issuance {
                    return Err(Error::ArithmeticOverflow);
                }
                let e = TokenEntry {
                    class: cl,
                    token: t,
                    info: TokenInfo { royalty: info.royalty, issuance: info.issuance + qty },
                };
                proof {
                    lemma_tokens_map_update(toks0, j as int, e);
                }
                self.tokens[j] = e;
            },
            None => {
                let e = TokenEntry {
                    class: cl,
                    token: t,
                    info: TokenInfo { royalty, issuance: qty },
                };
                proof {
                    lemma_tokens_map_contains(toks0, (cl, t));
                    lemma_tokens_map_push(toks0, e);
                }
                self.tokens.push(e);
            },
        }
        // Then the owner's holding.
        let ghost toks1 = self.tokens@;
        match self.find_hold(owner, cl, t) {
            Some(i) => {
                let h = self.holds[i].hold;
                proof {
                    // the old issuance bounds the holding's amount
                    assert(old(self).tokens_m().contains_key(
                        (old(self).holds@[i as int].class, old(self).holds@[i as int].token),
                    ));
                    lemma_tokens_map_contains(toks0, (cl, t));
                    let k = choose|k: int| 0 <= k < toks0.len() && tkey(toks0[k]) == (cl, t);
                    lemma_tokens_map_index(toks0, k);
                    assert(old(self).tokens@[k].info.issuance == tok_sum(
                        old(self).holds@,
                        old(self).tokens@[k].class,
                        old(self).tokens@[k].token,
                    ));
                    lemma_tok_sum_ge_entry(s0, i as int, cl, t);
                }
                let e = HoldEntry {
                    account: owner,
                    class: cl,
                    token: t,
                    hold: Holding { free: h.free + qty, reserved: h.reserved },
                };
                proof {
                    lemma_holds_map_update(s0, i as int, e);
                    assert forall|c2: ClassId, t2: TokenId|
                        tok_sum(s0.update(i as int, e), c2, t2) == tok_sum(s0, c2, t2) + (
                        if c2 == cl && t2 == t {
                            qty as int
                        } else {
                            0
                        }) by {
                        lemma_tok_sum_update(s0, i as int, e, c2, t2);
                    }
                }
                self.holds[i] = e;
            },
            None => {
                let e = HoldEntry {
                    account: owner,
                    class: cl,
                    token: t,
                    hold: Holding { free: qty, reserved: 0 },
                };
                proof {
                    lemma_holds_map_contains(s0, (owner, cl, t));
                    lemma_holds_map_push(s0, e);
                    assert forall|c2: ClassId, t2: TokenId|
                        tok_sum(s0.push(e), c2, t2) == tok_sum(s0, c2, t2) + (
                        if c2 == cl && t2 == t {
                            qty as int
                        } else {
                            0
                        }) by {
                        lemma_tok_sum_push(s0, e, c2, t2);
                    }
                }
                self.holds.push(e);
            },
        }
        proof {
            assert forall|j: int|
                0 <= j < self.tokens@.len() implies #[trigger] self.tokens@[j].info.issuance
                == tok_sum(self.holds@, self.tokens@[j].class, self.tokens@[j].token) by {
                lemma_tokens_map_index(toks1, j);
                if tkey(self.tokens@[j]) == (cl, t) {
                    // the one touched token: old issuance was the old sum
                    if tokens_as_map(toks0).contains_key((cl, t)) {
                        lemma_tokens_map_contains(toks0, (cl, t));
                        let k = choose|k: int| 0 <= k < toks0.len() && tkey(toks0[k]) == (cl, t);
                        lemma_tokens_map_index(toks0, k);
                        assert(old(self).tokens@[k].info.issuance == tok_sum(
                            old(self).holds@,
                            old(self).tokens@[k].class,
                            old(self).tokens@[k].token,
                        ));
                    } else {
                        assert forall|x: int|
                            0 <= x < s0.len() implies !(s0[x].class == cl && s0[x].token
                            == t) by {
                            if s0[x].class == cl && s0[x].token == t {
                                assert(old(self).tokens_m().contains_key(
                                    (old(self).holds@[x].class, old(self).holds@[x].token),
                                ));
                            }
                        }
                        lemma_tok_sum_absent(s0, cl, t);
                    }
                    assert(tok_sum(self.holds@, cl, t) == tok_sum(s0, cl, t) + qty);
                } else {
                    assert(tok_sum(self.holds@, self.tokens@[j].class, self.tokens@[j].token)
                        == tok_sum(s0, self.tokens@[j].class, self.tokens@[j].token));
                    lemma_tokens_map_contains(toks0, tkey(self.tokens@[j]));
                    let k = choose|k: int|
                        0 <= k < toks0.len() && tkey(toks0[k]) == tkey(self.tokens@[j]);
                    lemma_tokens_map_index(toks0, k);
                    assert(old(self).tokens@[k].info.issuance == tok_sum(
                        old(self).holds@,
                        old(self).tokens@[k].class,
                        old(self).tokens@[k].token,
                    ));
                }
            }
            assert forall|j: int|
                0 <= j < self.holds@.len() implies #[trigger] self.tokens_m().contains_key(
                (self.holds@[j].class, self.holds@[j].token),
            ) by {
                if j < s0.len() && self.holds@[j] == s0[j] {
                    assert(old(self).tokens_m().contains_key(
                        (old(self).holds@[j].class, old(self).holds@[j].token),
                    ));
                } else {
                    assert(self.holds@[j].class == cl && self.holds@[j].token == t);
                }
            }
        }
        Ok(())
    }
}

} // verus!
