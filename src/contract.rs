use vstd::prelude::*;

use crate::hex_text::{encode_hex, hex_text};
use crate::numeric::{
    amount_of, clears_threshold, decimal_text, lemma_decimal_text_injective,
    lemma_decimal_text_reads_back, parse_amount, parse_digits, profit_of, profit_units,
    render_decimal, threshold_met, ONE_WHOLE,
};
use crate::records::{
    copy_execution, copy_intent, owned_executions, owned_intents, profit_sum, ArbitrageError,
    ArbitrageExecution, ArbitrageIntent, ContractInfo, CrossChainSignature, IntentStatus,
    ProfitEntry, SettlementCall, SignatureEntry,
};
use crate::user_index::{
    find_user, has_entry, indexes, lists_positions, record_position, UserIndex,
};

verus! {

/// The smallest deposit that creating an intent takes: one whole, in minor units.
pub const MIN_DEPOSIT: u128 = ONE_WHOLE;

/// The gas fee recorded with every execution: a fixed 0.01 whole, in minor units.
pub const GAS_FEES: u128 = 10_000_000_000_000_000_000_000;

/// The intent at index `k` of `s` has the id `id`.
pub open spec fn intent_at(s: Seq<ArbitrageIntent>, id: Seq<char>, k: int) -> bool {
    0 <= k < s.len() && s[k].id@ == id
}

pub open spec fn has_intent(s: Seq<ArbitrageIntent>, id: Seq<char>) -> bool {
    exists|k: int| intent_at(s, id, k)
}

/// The intent with the id `id`; meaningful where `has_intent(s, id)`.
pub open spec fn intent_with(s: Seq<ArbitrageIntent>, id: Seq<char>) -> ArbitrageIntent {
    s[choose|k: int| intent_at(s, id, k)]
}

/// The profit total recorded for `user`, zero when none is.
pub open spec fn recorded_profit(entries: Seq<ProfitEntry>, user: Seq<char>) -> nat {
    if exists|i: int| 0 <= i < entries.len() && entries[i].user@ == user {
        entries[choose|i: int| 0 <= i < entries.len() && entries[i].user@ == user].total as nat
    } else {
        0
    }
}

/// The signature stored for the execution id `id`, if any.
pub open spec fn stored_signature(entries: Seq<SignatureEntry>, id: Seq<char>) -> Option<
    CrossChainSignature,
> {
    if exists|i: int| 0 <= i < entries.len() && entries[i].execution_id@ == id {
        Some(entries[choose|i: int| 0 <= i < entries.len() && entries[i].execution_id@ == id].record)
    } else {
        None
    }
}

/// Why `create_intent` rejects a deposit and a threshold literal, if it does.
pub open spec fn create_verdict(deposit: u128, threshold: Seq<char>, next_id: u64) -> Option<
    ArbitrageError,
> {
    if deposit < MIN_DEPOSIT {
        Some(ArbitrageError::InsufficientDeposit)
    } else if amount_of(threshold) is None {
        Some(ArbitrageError::InvalidInput)
    } else if next_id == u64::MAX {
        Some(ArbitrageError::Overflow)
    } else {
        None
    }
}

/// Why a call by `caller` on the intent `id` is rejected before its status is read.
pub open spec fn owner_verdict(s: Seq<ArbitrageIntent>, caller: Seq<char>, id: Seq<char>) -> Option<
    ArbitrageError,
> {
    if !has_intent(s, id) {
        Some(ArbitrageError::NotFound)
    } else if intent_with(s, id).user@ != caller {
        Some(ArbitrageError::Unauthorized)
    } else {
        None
    }
}

pub open spec fn with_status(x: ArbitrageIntent, status: IntentStatus) -> ArbitrageIntent {
    ArbitrageIntent { status, ..x }
}

/// The value of a price literal, in minor units; meaningful where it parses.
pub open spec fn amount_value(s: Seq<char>) -> u128 {
    match amount_of(s) {
        Some(v) => v,
        None => 0,
    }
}

pub open spec fn price_gap(a: u128, b: u128) -> nat {
    if a >= b {
        (a - b) as nat
    } else {
        (b - a) as nat
    }
}

pub open spec fn lower_price(a: u128, b: u128) -> nat {
    if a <= b {
        a as nat
    } else {
        b as nat
    }
}

/// `e` records the execution numbered by `id` of `intent`, whose id is `intent_id`, at
/// the prices `a` and `b`, with the random bytes `seed`, at the time `now`.
pub open spec fn records_execution(
    e: ArbitrageExecution,
    id: Seq<char>,
    intent_id: String,
    intent: ArbitrageIntent,
    a: u128,
    b: u128,
    seed: Seq<u8>,
    now: u64,
) -> bool {
    &&& e.id@ == id
    &&& e.intent_id == intent_id
    &&& e.user == intent.user
    &&& e.token_pair == intent.token_pair
    &&& e.price_diff == price_gap(a, b)
    &&& e.profit == profit_of(price_gap(a, b))
    &&& e.gas_fees == GAS_FEES
    &&& e.tx_hash@ == hex_text(seed)
    &&& e.timestamp == now
    &&& e.near_price == a
    &&& e.eth_price == b
}

proof fn lemma_push_execution(s: Seq<ArbitrageExecution>, e: ArbitrageExecution, u: Seq<char>)
    ensures
        owned_executions(s.push(e), u) == (if e.user@ == u {
            owned_executions(s, u).push(e)
        } else {
            owned_executions(s, u)
        }),
        profit_sum(s.push(e)) == profit_sum(s) + e.profit,
{
    assert(s.push(e).drop_last() =~= s);
}

/// The execution at index `k` of `s` has the id `id`.
pub open spec fn execution_at(s: Seq<ArbitrageExecution>, id: Seq<char>, k: int) -> bool {
    0 <= k < s.len() && s[k].id@ == id
}

pub open spec fn has_execution(s: Seq<ArbitrageExecution>, id: Seq<char>) -> bool {
    exists|k: int| execution_at(s, id, k)
}

/// The execution with the id `id`; meaningful where `has_execution(s, id)`.
pub open spec fn execution_with(s: Seq<ArbitrageExecution>, id: Seq<char>) -> ArbitrageExecution {
    s[choose|k: int| execution_at(s, id, k)]
}

/// The contract's name, as reported by `get_contract_info`.
pub open spec fn contract_name() -> Seq<char> {
    seq!['A', 'r', 'b', 'i', 't', 'r', 'a', 'g', 'e', 'A', 'I', ' ', 'C', 'r', 'o', 's', 's', '-', 'C', 'h', 'a', 'i', 'n', ' ', 'A', 'g', 'e', 'n', 't']
}

/// The contract's version, as reported by `get_contract_info`.
pub open spec fn contract_version() -> Seq<char> {
    seq!['1', '.', '0', '.', '0']
}

/// The owner of each intent, by position.
pub open spec fn intent_owners(s: Seq<ArbitrageIntent>) -> Seq<Seq<char>> {
    Seq::new(s.len(), |k: int| s[k].user@)
}

/// The records at the positions that an index lists for `u` are the records of `u`, in
/// order.
proof fn lemma_select_intents(s: Seq<ArbitrageIntent>, ps: Seq<usize>, u: Seq<char>)
    requires
        lists_positions(ps, intent_owners(s), u),
    ensures
        Seq::new(ps.len(), |t: int| s[ps[t] as int]) == owned_intents(s, u),
    decreases s.len(),
{
    let owners = intent_owners(s);
    if s.len() == 0 {
        if ps.len() > 0 {
            assert(ps[0] < owners.len());
        }
        assert(Seq::new(ps.len(), |t: int| s[ps[t] as int]) =~= Seq::<ArbitrageIntent>::empty());
    } else {
        let n = s.len() - 1;
        let s2 = s.drop_last();
        let owners2 = intent_owners(s2);
        assert(owners2 =~= owners.drop_last());
        if s[n].user@ == u {
            assert(owners[n] == u);
            let t0 = choose|t: int| 0 <= t < ps.len() && ps[t] == n;
            let last = ps.len() - 1;
            if t0 < last {
                assert(ps[t0] < ps[last]);
                assert(ps[last] < owners.len());
            }
            assert(ps[last] == n);
            let ps2 = ps.drop_last();
            assert forall|t: int| 0 <= t < ps2.len() implies (#[trigger] ps2[t]) < owners2.len()
                && owners2[ps2[t] as int] == u by {
                assert(ps[t] < ps[last]);
                assert(ps2[t] == ps[t]);
                assert(owners[ps[t] as int] == u);
            }
            assert forall|a: int, b: int| 0 <= a < b < ps2.len() implies #[trigger] ps2[a]
                < #[trigger] ps2[b] by {
                assert(ps[a] < ps[b]);
            }
            assert forall|p: int| 0 <= p < owners2.len() && #[trigger] owners2[p] == u implies exists|
                t: int,
            | 0 <= t < ps2.len() && ps2[t] == p by {
                assert(owners[p] == u);
                let t = choose|t: int| 0 <= t < ps.len() && ps[t] == p;
                assert(t != last);
                assert(ps2[t] == p);
            }
            lemma_select_intents(s2, ps2, u);
            assert(Seq::new(ps.len(), |t: int| s[ps[t] as int]) =~= Seq::new(
                ps2.len(),
                |t: int| s2[ps2[t] as int],
            ).push(s[n]));
        } else {
            assert forall|t: int| 0 <= t < ps.len() implies (#[trigger] ps[t]) < owners2.len()
                && owners2[ps[t] as int] == u by {
                assert(owners[ps[t] as int] == u);
                assert(ps[t] != n);
            }
            assert forall|p: int| 0 <= p < owners2.len() && #[trigger] owners2[p] == u implies exists|
                t: int,
            | 0 <= t < ps.len() && ps[t] == p by {
                assert(owners[p] == u);
            }
            lemma_select_intents(s2, ps, u);
            assert(Seq::new(ps.len(), |t: int| s[ps[t] as int]) =~= Seq::new(
                ps.len(),
                |t: int| s2[ps[t] as int],
            ));
        }
    }
}

/// The owner of each execution, by position.
pub open spec fn execution_owners(s: Seq<ArbitrageExecution>) -> Seq<Seq<char>> {
    Seq::new(s.len(), |k: int| s[k].user@)
}

/// The records at the positions that an index lists for `u` are the records of `u`, in
/// order.
proof fn lemma_select_executions(s: Seq<ArbitrageExecution>, ps: Seq<usize>, u: Seq<char>)
    requires
        lists_positions(ps, execution_owners(s), u),
    ensures
        Seq::new(ps.len(), |t: int| s[ps[t] as int]) == owned_executions(s, u),
    decreases s.len(),
{
    let owners = execution_owners(s);
    if s.len() == 0 {
        if ps.len() > 0 {
            assert(ps[0] < owners.len());
        }
        assert(Seq::new(ps.len(), |t: int| s[ps[t] as int]) =~= Seq::<ArbitrageExecution>::empty());
    } else {
        let n = s.len() - 1;
        let s2 = s.drop_last();
        let owners2 = execution_owners(s2);
        assert(owners2 =~= owners.drop_last());
        if s[n].user@ == u {
            assert(owners[n] == u);
            let t0 = choose|t: int| 0 <= t < ps.len() && ps[t] == n;
            let last = ps.len() - 1;
            if t0 < last {
                assert(ps[t0] < ps[last]);
                assert(ps[last] < owners.len());
            }
            assert(ps[last] == n);
            let ps2 = ps.drop_last();
            assert forall|t: int| 0 <= t < ps2.len() implies (#[trigger] ps2[t]) < owners2.len()
                && owners2[ps2[t] as int] == u by {
                assert(ps[t] < ps[last]);
                assert(ps2[t] == ps[t]);
                assert(owners[ps[t] as int] == u);
            }
            assert forall|a: int, b: int| 0 <= a < b < ps2.len() implies #[trigger] ps2[a]
                < #[trigger] ps2[b] by {
                assert(ps[a] < ps[b]);
            }
            assert forall|p: int| 0 <= p < owners2.len() && #[trigger] owners2[p] == u implies exists|
                t: int,
            | 0 <= t < ps2.len() && ps2[t] == p by {
                assert(owners[p] == u);
                let t = choose|t: int| 0 <= t < ps.len() && ps[t] == p;
                assert(t != last);
                assert(ps2[t] == p);
            }
            lemma_select_executions(s2, ps2, u);
            assert(Seq::new(ps.len(), |t: int| s[ps[t] as int]) =~= Seq::new(
                ps2.len(),
                |t: int| s2[ps2[t] as int],
            ).push(s[n]));
        } else {
            assert forall|t: int| 0 <= t < ps.len() implies (#[trigger] ps[t]) < owners2.len()
                && owners2[ps[t] as int] == u by {
                assert(owners[ps[t] as int] == u);
                assert(ps[t] != n);
            }
            assert forall|p: int| 0 <= p < owners2.len() && #[trigger] owners2[p] == u implies exists|
                t: int,
            | 0 <= t < ps.len() && ps[t] == p by {
                assert(owners[p] == u);
            }
            lemma_select_executions(s2, ps, u);
            assert(Seq::new(ps.len(), |t: int| s[ps[t] as int]) =~= Seq::new(
                ps.len(),
                |t: int| s2[ps[t] as int],
            ));
        }
    }
}

/// The contract's state: intents and executions are numbered from 1 in the order of
/// their creation, the id of each being its number in decimal.
pub struct ArbitrageContract {
    pub owner: String,
    pub intents: Vec<ArbitrageIntent>,
    pub executions: Vec<ArbitrageExecution>,
    pub user_intents: Vec<UserIndex>,
    pub user_executions: Vec<UserIndex>,
    pub user_profits: Vec<ProfitEntry>,
    pub cross_chain_signatures: Vec<SignatureEntry>,
    pub next_intent_id: u64,
    pub next_execution_id: u64,
}

impl ArbitrageContract {
    pub open spec fn wf(&self) -> bool {
        &&& self.next_intent_id == self.intents@.len() + 1
        &&& self.next_execution_id == self.executions@.len() + 1
        &&& forall|i: int|
            0 <= i < self.intents@.len() ==> (#[trigger] self.intents@[i]).id@ == decimal_text(
                (i + 1) as nat,
            )
        &&& forall|i: int|
            0 <= i < self.executions@.len() ==> (#[trigger] self.executions@[i]).id@
                == decimal_text((i + 1) as nat)
        &&& indexes(self.user_intents@, intent_owners(self.intents@))
        &&& indexes(self.user_executions@, execution_owners(self.executions@))
        &&& forall|i: int, j: int|
            0 <= i < j < self.user_profits@.len() ==> (#[trigger] self.user_profits@[i]).user@
                != (#[trigger] self.user_profits@[j]).user@
        &&& forall|i: int|
            0 <= i < self.user_profits@.len() ==> (#[trigger] self.user_profits@[i]).total as nat
                == profit_sum(owned_executions(self.executions@, self.user_profits@[i].user@))
        &&& forall|u: Seq<char>|
            !(exists|i: int|
                0 <= i < self.user_profits@.len() && self.user_profits@[i].user@ == u)
                ==> #[trigger] profit_sum(owned_executions(self.executions@, u)) == 0
        &&& forall|i: int, j: int|
            0 <= i < j < self.cross_chain_signatures@.len()
                ==> (#[trigger] self.cross_chain_signatures@[i]).execution_id@
                != (#[trigger] self.cross_chain_signatures@[j]).execution_id@
    }

    /// The profit total of `user`, in minor units.
    pub open spec fn total_profit_of(&self, user: Seq<char>) -> nat {
        recorded_profit(self.user_profits@, user)
    }

    /// Everything but the intents, their index and their counter.
    pub open spec fn same_ledger(&self, other: &Self) -> bool {
        &&& self.owner == other.owner
        &&& self.executions == other.executions
        &&& self.user_executions == other.user_executions
        &&& self.user_profits == other.user_profits
        &&& self.cross_chain_signatures == other.cross_chain_signatures
        &&& self.next_execution_id == other.next_execution_id
    }

    /// Intent ids are the numbers 1, 2, ... in decimal, in the order of creation, so that
    /// none is issued twice.
    pub proof fn lemma_intent_ids_in_order(&self)
        requires
            self.wf(),
        ensures
            forall|i: int|
                0 <= i < self.intents@.len() ==> (#[trigger] self.intents@[i]).id@ == decimal_text(
                    (i + 1) as nat,
                ),
            forall|i: int, j: int|
                0 <= i < j < self.intents@.len() ==> (#[trigger] self.intents@[i]).id@
                    != (#[trigger] self.intents@[j]).id@,
    {
        assert forall|i: int, j: int|
            0 <= i < j < self.intents@.len() implies (#[trigger] self.intents@[i]).id@
            != (#[trigger] self.intents@[j]).id@ by {
            if self.intents@[i].id@ == self.intents@[j].id@ {
                lemma_decimal_text_injective((i + 1) as nat, (j + 1) as nat);
            }
        }
    }

    proof fn lemma_intent_unique(&self, id: Seq<char>, k: int)
        requires
            self.wf(),
            intent_at(self.intents@, id, k),
        ensures
            intent_with(self.intents@, id) == self.intents@[k],
            forall|j: int| intent_at(self.intents@, id, j) ==> j == k,
    {
        assert forall|j: int| intent_at(self.intents@, id, j) implies j == k by {
            assert(self.intents@[j].id@ == decimal_text((j + 1) as nat));
            assert(self.intents@[k].id@ == decimal_text((k + 1) as nat));
            lemma_decimal_text_injective((j + 1) as nat, (k + 1) as nat);
        }
    }

    /// A contract with no records, owned by `owner`.
    pub fn new(owner: String) -> (r: Self)
        ensures
            r.wf(),
            r.owner == owner,
            r.intents@.len() == 0,
            r.executions@.len() == 0,
            r.user_profits@.len() == 0,
            r.cross_chain_signatures@.len() == 0,
            r.next_intent_id == 1,
            r.next_execution_id == 1,
            forall|id: Seq<char>| #[trigger] stored_signature(r.cross_chain_signatures@, id) is None,
            forall|user: Seq<char>| #[trigger] r.total_profit_of(user) == 0,
    {
        let r = ArbitrageContract {
            owner,
            intents: Vec::new(),
            executions: Vec::new(),
            user_intents: Vec::new(),
            user_executions: Vec::new(),
            user_profits: Vec::new(),
            cross_chain_signatures: Vec::new(),
            next_intent_id: 1,
            next_execution_id: 1,
        };
        proof {
            assert forall|u: Seq<char>|
                !(exists|i: int| 0 <= i < r.user_profits@.len() && r.user_profits@[i].user@ == u)
                implies #[trigger] profit_sum(owned_executions(r.executions@, u)) == 0 by {
                assert(owned_executions(r.executions@, u) =~= Seq::empty());
            }
        }
        r
    }

    /// Finds the intent `id` at the position that its number gives, if it is there.
    fn find_intent(&self, id: &String) -> (r: Option<usize>)
        requires
            self.wf(),
        ensures
            match r {
                Some(k) => intent_at(self.intents@, id@, k as int),
                None => !has_intent(self.intents@, id@),
            },
    {
        let text = id.as_str();
        let n = text.unicode_len();
        let parsed = parse_digits(text, 0, n);
        proof {
            assert(text@.subrange(0, n as int) =~= id@);
            if has_intent(self.intents@, id@) {
                let k = choose|k: int| intent_at(self.intents@, id@, k);
                assert(self.intents@[k].id@ == decimal_text((k + 1) as nat));
                lemma_decimal_text_reads_back((k + 1) as nat);
                assert(parsed == Some((k + 1) as u128));
            }
        }
        match parsed {
            Some(v) => {
                if v >= 1 && v <= self.intents.len() as u128 {
                    let k = (v - 1) as usize;
                    if self.intents[k].id == *id {
                        return Some(k);
                    }
                }
                None
            },
            None => None,
        }
    }

    /// Registers an intent of `caller`, who attached `deposit`, at the time `now`, and
    /// returns its id.
    pub fn create_intent(
        &mut self,
        caller: String,
        deposit: u128,
        now: u64,
        token_pair: String,
        min_profit_threshold: String,
    ) -> (r: Result<String, ArbitrageError>)
        requires
            old(self).wf(),
        ensures
            final(self).wf(),
            match r {
                Ok(id) => {
                    &&& create_verdict(deposit, min_profit_threshold@, old(self).next_intent_id)
                        is None
                    &&& id@ == decimal_text(old(self).next_intent_id as nat)
                    &&& final(self).next_intent_id == old(self).next_intent_id + 1
                    &&& final(self).intents@ == old(self).intents@.push(final(self).intents@.last())
                    &&& final(self).intents@.last().id == id
                    &&& final(self).intents@.last().user == caller
                    &&& final(self).intents@.last().token_pair == token_pair
                    &&& amount_of(min_profit_threshold@) == Some(
                        final(self).intents@.last().min_profit_threshold,
                    )
                    &&& final(self).intents@.last().status == IntentStatus::Active
                    &&& final(self).intents@.last().created_at == now
                    &&& final(self).same_ledger(old(self))
                },
                Err(e) => {
                    &&& create_verdict(deposit, min_profit_threshold@, old(self).next_intent_id)
                        == Some(e)
                    &&& *final(self) == *old(self)
                },
            },
    {
        if deposit < MIN_DEPOSIT {
            return Err(ArbitrageError::InsufficientDeposit);
        }
        let threshold = match parse_amount(min_profit_threshold.as_str()) {
            None => {
                return Err(ArbitrageError::InvalidInput);
            },
            Some(t) => t,
        };
        if self.next_intent_id == u64::MAX {
            return Err(ArbitrageError::Overflow);
        }
        let id = render_decimal(self.next_intent_id);
        self.next_intent_id = self.next_intent_id + 1;
        let ghost old_intents = self.intents@;
        let pos = self.intents.len();
        let owner_key = caller.clone();
        let intent = ArbitrageIntent {
            id: id.clone(),
            user: caller,
            token_pair,
            min_profit_threshold: threshold,
            status: IntentStatus::Active,
            created_at: now,
        };
        self.intents.push(intent);
        proof {
            assert(intent_owners(self.intents@) =~= intent_owners(old_intents).push(owner_key@));
        }
        record_position(&mut self.user_intents, owner_key, pos, Ghost(intent_owners(old_intents)));
        Ok(id)
    }

    fn set_status(&mut self, caller: &String, intent_id: &String, status: IntentStatus) -> (r:
        Result<(), ArbitrageError>)
        requires
            old(self).wf(),
        ensures
            final(self).wf(),
            match r {
                Ok(()) => {
                    &&& owner_verdict(old(self).intents@, caller@, intent_id@) is None
                    &&& final(self).intents@ == old(self).intents@.update(
                        choose|k: int| intent_at(old(self).intents@, intent_id@, k),
                        with_status(intent_with(old(self).intents@, intent_id@), status),
                    )
                    &&& final(self).next_intent_id == old(self).next_intent_id
                    &&& final(self).same_ledger(old(self))
                },
                Err(e) => {
                    &&& owner_verdict(old(self).intents@, caller@, intent_id@) == Some(e)
                    &&& *final(self) == *old(self)
                },
            },
    {
        let k = match self.find_intent(intent_id) {
            None => {
                return Err(ArbitrageError::NotFound);
            },
            Some(k) => k,
        };
        proof {
            self.lemma_intent_unique(intent_id@, k as int);
        }
        if !(self.intents[k].user == *caller) {
            return Err(ArbitrageError::Unauthorized);
        }
        let mut intent = copy_intent(&self.intents[k]);
        intent.status = status;
        self.intents.set(k, intent);
        proof {
            assert forall|i: int| 0 <= i < self.intents@.len() implies (
            #[trigger] self.intents@[i]).id@ == decimal_text((i + 1) as nat) by {
                assert(old(self).intents@[i].id@ == decimal_text((i + 1) as nat));
            }
            assert(intent_owners(self.intents@) =~= intent_owners(old(self).intents@));
        }
        Ok(())
    }

    /// Marks the intent `intent_id` of `caller` as paused, whatever its status was.
    pub fn pause_intent(&mut self, caller: &String, intent_id: String) -> (r: Result<
        (),
        ArbitrageError,
    >)
        requires
            old(self).wf(),
        ensures
            final(self).wf(),
            match r {
                Ok(()) => {
                    &&& owner_verdict(old(self).intents@, caller@, intent_id@) is None
                    &&& final(self).intents@ == old(self).intents@.update(
                        choose|k: int| intent_at(old(self).intents@, intent_id@, k),
                        with_status(intent_with(old(self).intents@, intent_id@), IntentStatus::Paused),
                    )
                    &&& final(self).next_intent_id == old(self).next_intent_id
                    &&& final(self).same_ledger(old(self))
                },
                Err(e) => {
                    &&& owner_verdict(old(self).intents@, caller@, intent_id@) == Some(e)
                    &&& *final(self) == *old(self)
                },
            },
    {
        self.set_status(caller, &intent_id, IntentStatus::Paused)
    }

    /// Marks the intent `intent_id` of `caller` as active, whatever its status was.
    pub fn resume_intent(&mut self, caller: &String, intent_id: String) -> (r: Result<
        (),
        ArbitrageError,
    >)
        requires
            old(self).wf(),
        ensures
            final(self).wf(),
            match r {
                Ok(()) => {
                    &&& owner_verdict(old(self).intents@, caller@, intent_id@) is None
                    &&& final(self).intents@ == old(self).intents@.update(
                        choose|k: int| intent_at(old(self).intents@, intent_id@, k),
                        with_status(intent_with(old(self).intents@, intent_id@), IntentStatus::Active),
                    )
                    &&& final(self).next_intent_id == old(self).next_intent_id
                    &&& final(self).same_ledger(old(self))
                },
                Err(e) => {
                    &&& owner_verdict(old(self).intents@, caller@, intent_id@) == Some(e)
                    &&& *final(self) == *old(self)
                },
            },
    {
        self.set_status(caller, &intent_id, IntentStatus::Active)
    }

    /// Why `execute_arbitrage` rejects a call, if it does.
    pub open spec fn execute_verdict(
        &self,
        caller: Seq<char>,
        id: Seq<char>,
        near_price: Seq<char>,
        eth_price: Seq<char>,
    ) -> Option<ArbitrageError> {
        match owner_verdict(self.intents@, caller, id) {
            Some(e) => Some(e),
            None => {
                let intent = intent_with(self.intents@, id);
                if intent.status != IntentStatus::Active {
                    Some(ArbitrageError::PreconditionFailed)
                } else {
                    match (amount_of(near_price), amount_of(eth_price)) {
                        (Some(a), Some(b)) => if lower_price(a, b) == 0 {
                            Some(ArbitrageError::InvalidInput)
                        } else if !clears_threshold(
                            price_gap(a, b),
                            lower_price(a, b),
                            intent.min_profit_threshold as nat,
                        ) {
                            Some(ArbitrageError::PreconditionFailed)
                        } else if self.next_execution_id == u64::MAX || self.total_profit_of(
                            intent.user@,
                        ) + profit_of(price_gap(a, b)) > u128::MAX {
                            Some(ArbitrageError::Overflow)
                        } else {
                            None
                        },
                        _ => Some(ArbitrageError::InvalidInput),
                    }
                }
            },
        }
    }

    /// The profits of a user's execution history, in minor units, add up to the user's
    /// profit total, after any sequence of calls that keeps the invariant.
    pub proof fn lemma_history_sums_to_total(&self, user: Seq<char>)
        requires
            self.wf(),
        ensures
            self.total_profit_of(user) == profit_sum(owned_executions(self.executions@, user)),
    {
        if exists|i: int|
            0 <= i < self.user_profits@.len() && self.user_profits@[i].user@ == user {
            let i = choose|i: int|
                0 <= i < self.user_profits@.len() && self.user_profits@[i].user@ == user;
            assert(self.user_profits@[i].total as nat == profit_sum(
                owned_executions(self.executions@, self.user_profits@[i].user@),
            ));
        } else {
            assert(profit_sum(owned_executions(self.executions@, user)) == 0);
        }
    }

    fn find_profit(&self, user: &String) -> (r: Option<usize>)
        ensures
            match r {
                Some(j) => j < self.user_profits@.len() && self.user_profits@[j as int].user@
                    == user@,
                None => forall|j: int|
                    0 <= j < self.user_profits@.len() ==> self.user_profits@[j].user@ != user@,
            },
    {
        let mut i: usize = 0;
        while i < self.user_profits.len()
            invariant
                i <= self.user_profits@.len(),
                forall|j: int| 0 <= j < i ==> self.user_profits@[j].user@ != user@,
            decreases self.user_profits@.len() - i,
        {
            if self.user_profits[i].user == *user {
                return Some(i);
            }
            i = i + 1;
        }
        None
    }

    /// Executes the intent `intent_id` of `caller` at the quoted prices: records an
    /// execution with 80% of the price gap as profit, adds that profit to the owner's
    /// total, marks the intent executed, and returns the settlement call to issue.
    /// `seed` is random bytes from the host, from which the transaction hash is made.
    pub fn execute_arbitrage(
        &mut self,
        caller: &String,
        intent_id: String,
        near_price: String,
        eth_price: String,
        now: u64,
        seed: Vec<u8>,
    ) -> (r: Result<SettlementCall, ArbitrageError>)
        requires
            old(self).wf(),
        ensures
            final(self).wf(),
            match r {
                Ok(call) => {
                    &&& old(self).execute_verdict(caller@, intent_id@, near_price@, eth_price@)
                        is None
                    &&& call.execution_id@ == decimal_text(old(self).next_execution_id as nat)
                    &&& final(self).executions@ == old(self).executions@.push(
                        final(self).executions@.last(),
                    )
                    &&& records_execution(
                        final(self).executions@.last(),
                        decimal_text(old(self).next_execution_id as nat),
                        intent_id,
                        intent_with(old(self).intents@, intent_id@),
                        amount_value(near_price@),
                        amount_value(eth_price@),
                        seed@,
                        now,
                    )
                    &&& final(self).intents@ == old(self).intents@.update(
                        choose|k: int| intent_at(old(self).intents@, intent_id@, k),
                        with_status(
                            intent_with(old(self).intents@, intent_id@),
                            IntentStatus::Executed,
                        ),
                    )
                    &&& forall|u: Seq<char>|
                        #[trigger] final(self).total_profit_of(u) == old(self).total_profit_of(u) + (
                        if u == intent_with(old(self).intents@, intent_id@).user@ {
                            profit_of(price_gap(amount_value(near_price@), amount_value(eth_price@)))
                        } else {
                            0
                        })
                    &&& final(self).next_execution_id == old(self).next_execution_id + 1
                    &&& final(self).next_intent_id == old(self).next_intent_id
                    &&& final(self).owner == old(self).owner
                    &&& final(self).cross_chain_signatures == old(self).cross_chain_signatures
                },
                Err(e) => {
                    &&& old(self).execute_verdict(caller@, intent_id@, near_price@, eth_price@)
                        == Some(e)
                    &&& *final(self) == *old(self)
                },
            },
    {
        let k = match self.find_intent(&intent_id) {
            None => {
                return Err(ArbitrageError::NotFound);
            },
            Some(k) => k,
        };
        proof {
            self.lemma_intent_unique(intent_id@, k as int);
        }
        if !(self.intents[k].user == *caller) {
            return Err(ArbitrageError::Unauthorized);
        }
        if self.intents[k].status != IntentStatus::Active {
            return Err(ArbitrageError::PreconditionFailed);
        }
        let a = match parse_amount(near_price.as_str()) {
            None => {
                return Err(ArbitrageError::InvalidInput);
            },
            Some(v) => v,
        };
        let b = match parse_amount(eth_price.as_str()) {
            None => {
                return Err(ArbitrageError::InvalidInput);
            },
            Some(v) => v,
        };
        let low = if a <= b {
            a
        } else {
            b
        };
        if low == 0 {
            return Err(ArbitrageError::InvalidInput);
        }
        let diff = if a >= b {
            a - b
        } else {
            b - a
        };
        if !threshold_met(diff, low, self.intents[k].min_profit_threshold) {
            return Err(ArbitrageError::PreconditionFailed);
        }
        let profit = profit_units(diff);
        if self.next_execution_id == u64::MAX {
            return Err(ArbitrageError::Overflow);
        }
        let owner = self.intents[k].user.clone();
        let slot = self.find_profit(&owner);
        let current: u128 = match slot {
            Some(j) => self.user_profits[j].total,
            None => 0,
        };
        proof {
            self.lemma_history_sums_to_total(owner@);
            if let Some(j) = slot {
                assert(self.total_profit_of(owner@) == current) by {
                    let i = choose|i: int|
                        0 <= i < self.user_profits@.len() && self.user_profits@[i].user@
                            == owner@;
                    assert(i == j as int);
                }
            }
        }
        if current > u128::MAX - profit {
            return Err(ArbitrageError::Overflow);
        }
        let ghost old_self = *self;
        let execution_id = render_decimal(self.next_execution_id);
        self.next_execution_id = self.next_execution_id + 1;
        let execution = ArbitrageExecution {
            id: execution_id.clone(),
            intent_id,
            user: owner.clone(),
            token_pair: self.intents[k].token_pair.clone(),
            price_diff: diff,
            profit,
            gas_fees: GAS_FEES,
            tx_hash: encode_hex(&seed),
            timestamp: now,
            near_price: a,
            eth_price: b,
        };
        let ghost e = execution;
        let pos = self.executions.len();
        self.executions.push(execution);
        proof {
            assert(execution_owners(self.executions@) =~= execution_owners(old_self.executions@).push(
                owner@,
            ));
        }
        record_position(
            &mut self.user_executions,
            owner.clone(),
            pos,
            Ghost(execution_owners(old_self.executions@)),
        );
        match slot {
            Some(j) => {
                self.user_profits.set(j, ProfitEntry { user: owner, total: current + profit });
            },
            None => {
                self.user_profits.push(ProfitEntry { user: owner, total: profit });
            },
        }
        let mut intent = copy_intent(&self.intents[k]);
        intent.status = IntentStatus::Executed;
        self.intents.set(k, intent);
        proof {
            assert forall|i: int| 0 <= i < self.intents@.len() implies (
            #[trigger] self.intents@[i]).id@ == decimal_text((i + 1) as nat) by {
                assert(old_self.intents@[i].id@ == decimal_text((i + 1) as nat));
            }
            assert(intent_owners(self.intents@) =~= intent_owners(old_self.intents@));
            assert forall|i: int| 0 <= i < self.executions@.len() implies (
            #[trigger] self.executions@[i]).id@ == decimal_text((i + 1) as nat) by {
                if i < old_self.executions@.len() {
                    assert(old_self.executions@[i].id@ == decimal_text((i + 1) as nat));
                }
            }
            assert forall|u: Seq<char>|
                profit_sum(owned_executions(self.executions@, u)) == profit_sum(
                    owned_executions(old_self.executions@, u),
                ) + (if u == owner@ {
                    profit as nat
                } else {
                    0
                }) by {
                lemma_push_execution(old_self.executions@, e, u);
                if u == owner@ {
                    lemma_push_execution(owned_executions(old_self.executions@, u), e, u);
                }
            }
            assert forall|i: int, j: int|
                0 <= i < j < self.user_profits@.len() implies (
                #[trigger] self.user_profits@[i]).user@
                != (#[trigger] self.user_profits@[j]).user@ by {
                if slot is None && j == self.user_profits@.len() - 1 {
                    assert(old_self.user_profits@[i].user@ != owner@);
                } else {
                    assert(old_self.user_profits@[i].user@ != old_self.user_profits@[j].user@);
                }
            }
            assert forall|i: int| 0 <= i < self.user_profits@.len() implies (
            #[trigger] self.user_profits@[i]).total as nat == profit_sum(
                owned_executions(self.executions@, self.user_profits@[i].user@),
            ) by {
                let u = self.user_profits@[i].user@;
                if i < old_self.user_profits@.len() {
                    assert(old_self.user_profits@[i].total as nat == profit_sum(
                        owned_executions(old_self.executions@, old_self.user_profits@[i].user@),
                    ));
                    match slot {
                        Some(j) => {
                            assert(old_self.user_profits@[j as int].user@ == owner@);
                            if j as int != i {
                                assert(old_self.user_profits@[i].user@ != owner@);
                            }
                        },
                        None => assert(old_self.user_profits@[i].user@ != owner@),
                    }
                } else {
                    assert(profit_sum(owned_executions(old_self.executions@, owner@)) == 0);
                }
            }
            assert forall|u: Seq<char>|
                !(exists|i: int|
                    0 <= i < self.user_profits@.len() && self.user_profits@[i].user@ == u)
                    implies #[trigger] profit_sum(owned_executions(self.executions@, u)) == 0 by {
                if u == owner@ {
                    match slot {
                        Some(j) => assert(self.user_profits@[j as int].user@ == u),
                        None => assert(self.user_profits@[self.user_profits@.len() - 1].user@ == u),
                    }
                }
                assert forall|i: int| 0 <= i < old_self.user_profits@.len() implies
                    old_self.user_profits@[i].user@ != u by {
                    assert(self.user_profits@[i].user@ == old_self.user_profits@[i].user@);
                }
            }
            assert forall|u: Seq<char>|
                #[trigger] self.total_profit_of(u) == old_self.total_profit_of(u) + (if u
                    == owner@ {
                    profit as nat
                } else {
                    0
                }) by {
                self.lemma_history_sums_to_total(u);
                old_self.lemma_history_sums_to_total(u);
            }
        }
        Ok(SettlementCall { execution_id })
    }

    /// The execution with the id `execution_id`, if there is one.
    pub fn get_execution(&self, execution_id: String) -> (r: Option<ArbitrageExecution>)
        requires
            self.wf(),
        ensures
            match r {
                Some(x) => has_execution(self.executions@, execution_id@) && x == execution_with(
                    self.executions@,
                    execution_id@,
                ),
                None => !has_execution(self.executions@, execution_id@),
            },
    {
        let text = execution_id.as_str();
        let n = text.unicode_len();
        let parsed = parse_digits(text, 0, n);
        proof {
            assert(text@.subrange(0, n as int) =~= execution_id@);
            if has_execution(self.executions@, execution_id@) {
                let k = choose|k: int| execution_at(self.executions@, execution_id@, k);
                assert(self.executions@[k].id@ == decimal_text((k + 1) as nat));
                lemma_decimal_text_reads_back((k + 1) as nat);
                assert(parsed == Some((k + 1) as u128));
            }
        }
        match parsed {
            Some(v) => {
                if v >= 1 && v <= self.executions.len() as u128 {
                    let k = (v - 1) as usize;
                    if self.executions[k].id == execution_id {
                        proof {
                            assert forall|j: int|
                                execution_at(self.executions@, execution_id@, j) implies j
                                == k by {
                                assert(self.executions@[j].id@ == decimal_text((j + 1) as nat));
                                assert(self.executions@[k as int].id@ == decimal_text(
                                    (k + 1) as nat,
                                ));
                                lemma_decimal_text_injective((j + 1) as nat, (k + 1) as nat);
                            }
                            assert(execution_at(self.executions@, execution_id@, k as int));
                        }
                        return Some(copy_execution(&self.executions[k]));
                    }
                }
                None
            },
            None => None,
        }
    }

    /// The intents that `user` created, in the order of their creation.
    pub fn get_user_intents(&self, user: String) -> (r: Vec<ArbitrageIntent>)
        requires
            self.wf(),
        ensures
            r@ == owned_intents(self.intents@, user@),
    {
        let mut r: Vec<ArbitrageIntent> = Vec::new();
        match find_user(&self.user_intents, &user) {
            None => {
                proof {
                    let owners = intent_owners(self.intents@);
                    assert forall|p: int| 0 <= p < owners.len() implies #[trigger] owners[p]
                        != user@ by {
                        assert(has_entry(self.user_intents@, owners[p]));
                    }
                    lemma_select_intents(self.intents@, Seq::empty(), user@);
                    assert(Seq::new(0, |t: int| self.intents@[Seq::<usize>::empty()[t] as int])
                        =~= r@);
                }
            },
            Some(j) => {
                let positions = &self.user_intents[j].positions;
                proof {
                    assert(lists_positions(
                        self.user_intents@[j as int].positions@,
                        intent_owners(self.intents@),
                        user@,
                    ));
                }
                let mut t: usize = 0;
                while t < positions.len()
                    invariant
                        t <= positions@.len(),
                        *positions == self.user_intents@[j as int].positions,
                        lists_positions(positions@, intent_owners(self.intents@), user@),
                        r@ == Seq::new(t as nat, |k: int| self.intents@[positions@[k] as int]),
                    decreases positions@.len() - t,
                {
                    let p = positions[t];
                    assert(p < intent_owners(self.intents@).len());
                    r.push(copy_intent(&self.intents[p]));
                    t = t + 1;
                    proof {
                        assert(r@ =~= Seq::new(
                            t as nat,
                            |k: int| self.intents@[positions@[k] as int],
                        ));
                    }
                }
                proof {
                    lemma_select_intents(self.intents@, positions@, user@);
                }
            },
        }
        r
    }

    /// The executions of `user`'s intents, in the order in which they were recorded.
    pub fn get_execution_history(&self, user: String) -> (r: Vec<ArbitrageExecution>)
        requires
            self.wf(),
        ensures
            r@ == owned_executions(self.executions@, user@),
    {
        let mut r: Vec<ArbitrageExecution> = Vec::new();
        match find_user(&self.user_executions, &user) {
            None => {
                proof {
                    let owners = execution_owners(self.executions@);
                    assert forall|p: int| 0 <= p < owners.len() implies #[trigger] owners[p]
                        != user@ by {
                        assert(has_entry(self.user_executions@, owners[p]));
                    }
                    lemma_select_executions(self.executions@, Seq::empty(), user@);
                    assert(Seq::new(0, |t: int| self.executions@[Seq::<usize>::empty()[t] as int])
                        =~= r@);
                }
            },
            Some(j) => {
                let positions = &self.user_executions[j].positions;
                proof {
                    assert(lists_positions(
                        self.user_executions@[j as int].positions@,
                        execution_owners(self.executions@),
                        user@,
                    ));
                }
                let mut t: usize = 0;
                while t < positions.len()
                    invariant
                        t <= positions@.len(),
                        *positions == self.user_executions@[j as int].positions,
                        lists_positions(positions@, execution_owners(self.executions@), user@),
                        r@ == Seq::new(t as nat, |k: int| self.executions@[positions@[k] as int]),
                    decreases positions@.len() - t,
                {
                    let p = positions[t];
                    assert(p < execution_owners(self.executions@).len());
                    r.push(copy_execution(&self.executions[p]));
                    t = t + 1;
                    proof {
                        assert(r@ =~= Seq::new(
                            t as nat,
                            |k: int| self.executions@[positions@[k] as int],
                        ));
                    }
                }
                proof {
                    lemma_select_executions(self.executions@, positions@, user@);
                }
            },
        }
        r
    }

    /// The profit total of `user`, in minor units; zero for a user with no execution.
    pub fn get_total_profit(&self, user: String) -> (r: u128)
        requires
            self.wf(),
        ensures
            r == self.total_profit_of(user@),
    {
        match self.find_profit(&user) {
            Some(j) => {
                proof {
                    let i = choose|i: int|
                        0 <= i < self.user_profits@.len() && self.user_profits@[i].user@
                            == user@;
                    assert(i == j as int);
                }
                self.user_profits[j].total
            },
            None => 0,
        }
    }

    fn find_signature(&self, execution_id: &String) -> (r: Option<usize>)
        ensures
            match r {
                Some(j) => j < self.cross_chain_signatures@.len()
                    && self.cross_chain_signatures@[j as int].execution_id@ == execution_id@,
                None => forall|j: int|
                    0 <= j < self.cross_chain_signatures@.len()
                        ==> self.cross_chain_signatures@[j].execution_id@ != execution_id@,
            },
    {
        let mut i: usize = 0;
        while i < self.cross_chain_signatures.len()
            invariant
                i <= self.cross_chain_signatures@.len(),
                forall|j: int|
                    0 <= j < i ==> self.cross_chain_signatures@[j].execution_id@ != execution_id@,
            decreases self.cross_chain_signatures@.len() - i,
        {
            if self.cross_chain_signatures[i].execution_id == *execution_id {
                return Some(i);
            }
            i = i + 1;
        }
        None
    }

    /// Stores a signature for `execution_id`, replacing any stored before. Whether an
    /// execution has that id is not checked.
    pub fn store_cross_chain_signature(
        &mut self,
        execution_id: String,
        signature: Vec<u8>,
        public_key: Vec<u8>,
        chain_id: u64,
        nonce: u64,
    )
        requires
            old(self).wf(),
        ensures
            final(self).wf(),
            stored_signature(final(self).cross_chain_signatures@, execution_id@) == Some(
                (CrossChainSignature { signature, public_key, chain_id, nonce }),
            ),
            forall|id: Seq<char>|
                id != execution_id@ ==> #[trigger] stored_signature(
                    final(self).cross_chain_signatures@,
                    id,
                ) == stored_signature(old(self).cross_chain_signatures@, id),
            final(self).owner == old(self).owner,
            final(self).intents == old(self).intents,
            final(self).executions == old(self).executions,
            final(self).user_intents == old(self).user_intents,
            final(self).user_executions == old(self).user_executions,
            final(self).user_profits == old(self).user_profits,
            final(self).next_intent_id == old(self).next_intent_id,
            final(self).next_execution_id == old(self).next_execution_id,
    {
        let ghost old_sigs = self.cross_chain_signatures@;
        let record = CrossChainSignature { signature, public_key, chain_id, nonce };
        let slot = self.find_signature(&execution_id);
        let ghost id = execution_id@;
        match slot {
            Some(j) => {
                self.cross_chain_signatures.set(j, SignatureEntry { execution_id, record });
            },
            None => {
                self.cross_chain_signatures.push(SignatureEntry { execution_id, record });
            },
        }
        proof {
            assert(self.intents == old(self).intents);
            assert(self.executions == old(self).executions);
            assert(self.user_intents == old(self).user_intents);
            assert(self.user_executions == old(self).user_executions);
            assert(self.user_profits == old(self).user_profits);
            let sigs = self.cross_chain_signatures@;
            let j: int = match slot {
                Some(j) => j as int,
                None => old_sigs.len() as int,
            };
            assert(sigs[j].execution_id@ == id);
            assert forall|a: int, b: int| 0 <= a < b < sigs.len() implies (
            #[trigger] sigs[a]).execution_id@ != (#[trigger] sigs[b]).execution_id@ by {
                if a != j && b != j {
                    assert(old_sigs[a].execution_id@ != old_sigs[b].execution_id@);
                } else if a == j {
                    assert(sigs[b].execution_id@ == old_sigs[b].execution_id@);
                } else {
                    assert(sigs[a].execution_id@ == old_sigs[a].execution_id@);
                }
            }
            let c = choose|i: int| 0 <= i < sigs.len() && sigs[i].execution_id@ == id;
            assert(c == j);
            assert forall|x: Seq<char>| x != id implies #[trigger] stored_signature(sigs, x)
                == stored_signature(old_sigs, x) by {
                if exists|i: int| 0 <= i < sigs.len() && sigs[i].execution_id@ == x {
                    let i = choose|i: int| 0 <= i < sigs.len() && sigs[i].execution_id@ == x;
                    assert(i != j);
                    assert(old_sigs[i].execution_id@ == x);
                    let i2 = choose|i: int|
                        0 <= i < old_sigs.len() && old_sigs[i].execution_id@ == x;
                    assert(sigs[i2].execution_id@ == x);
                }
                if exists|i: int| 0 <= i < old_sigs.len() && old_sigs[i].execution_id@ == x {
                    let i2 = choose|i: int|
                        0 <= i < old_sigs.len() && old_sigs[i].execution_id@ == x;
                    assert(i2 != j);
                    assert(sigs[i2].execution_id@ == x);
                }
            }
        }
    }

    /// Whether a signature is stored for `execution_id`. Its content is not checked.
    pub fn verify_cross_chain_signature(&self, execution_id: String) -> (r: bool)
        ensures
            r == stored_signature(self.cross_chain_signatures@, execution_id@) is Some,
    {
        match self.find_signature(&execution_id) {
            Some(j) => {
                proof {
                    assert(self.cross_chain_signatures@[j as int].execution_id@ == execution_id@);
                }
                true
            },
            None => false,
        }
    }

    /// The contract's name, version and owner, and how many intents and executions it
    /// holds.
    pub fn get_contract_info(&self) -> (r: ContractInfo)
        requires
            self.wf(),
        ensures
            r.name@ == contract_name(),
            r.version@ == contract_version(),
            r.owner == self.owner,
            r.total_intents == self.intents@.len(),
            r.total_executions == self.executions@.len(),
    {
        let name = String::from_str("ArbitrageAI Cross-Chain Agent");
        let version = String::from_str("1.0.0");
        proof {
            reveal_strlit("ArbitrageAI Cross-Chain Agent");
            reveal_strlit("1.0.0");
            assert(name@ =~= contract_name());
            assert(version@ =~= contract_version());
        }
        ContractInfo {
            name,
            version,
            owner: self.owner.clone(),
            total_intents: self.next_intent_id - 1,
            total_executions: self.next_execution_id - 1,
        }
    }

    /// The intent with the id `intent_id`, if there is one.
    pub fn get_intent(&self, intent_id: String) -> (r: Option<ArbitrageIntent>)
        requires
            self.wf(),
        ensures
            match r {
                Some(x) => has_intent(self.intents@, intent_id@) && x == intent_with(
                    self.intents@,
                    intent_id@,
                ),
                None => !has_intent(self.intents@, intent_id@),
            },
    {
        match self.find_intent(&intent_id) {
            None => None,
            Some(k) => {
                proof {
                    self.lemma_intent_unique(intent_id@, k as int);
                }
                Some(copy_intent(&self.intents[k]))
            },
        }
    }
}

} // verus!
