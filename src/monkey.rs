//! Monkeys passing items around in rounds.
//!
//! Each monkey holds a FIFO queue of worry levels. On its turn it drains the
//! queue completely: every item is transformed by the monkey's operation,
//! reduced by the run's relief strategy, and thrown to one of two monkeys
//! depending on whether the reduced level is divisible by the monkey's test
//! divisor. Monkeys move strictly in order, and a monkey counts every item it
//! inspects.

use std::collections::VecDeque;
use vstd::arithmetic::div_mod::{lemma_add_mod_noop, lemma_mod_mod, lemma_mod_twice, lemma_mul_mod_noop};
use vstd::prelude::*;

verus! {

/// How a monkey changes the worry level of an item it inspects.
#[derive(Debug, Clone, Copy, PartialEq, Eq, Structural)]
pub enum Operation {
    Add(usize),
    Mul(usize),
    Square,
}

impl Operation {
    /// The new worry level, in unbounded arithmetic.
    pub open spec fn spec_apply(self, old: nat) -> nat {
        match self {
            Operation::Add(a) => old + (a as nat),
            Operation::Mul(m) => old * (m as nat),
            Operation::Square => old * old,
        }
    }

    /// Whether applying the operation to `old` stays within `usize`.
    pub fn can_apply(&self, old: usize) -> (r: bool)
        ensures
            r == (self.spec_apply(old as nat) <= usize::MAX),
    {
        match self {
            Operation::Add(a) => old.checked_add(*a).is_some(),
            Operation::Mul(m) => old.checked_mul(*m).is_some(),
            Operation::Square => old.checked_mul(old).is_some(),
        }
    }

    pub fn apply(&self, other: usize) -> (r: usize)
        requires
            self.spec_apply(other as nat) <= usize::MAX,
        ensures
            r == self.spec_apply(other as nat),
    {
        match self {
            Operation::Add(a) => other + *a,
            Operation::Mul(m) => other * *m,
            Operation::Square => other * other,
        }
    }
}

/// The policy that keeps worry levels small, applied after each operation
/// and before the routing test.
#[derive(Debug, Clone, Copy, PartialEq, Eq, Structural)]
pub enum Relief {
    /// Floor division by the parameter.
    Divide(usize),
    /// Remainder modulo the parameter.
    Modulo(usize),
}

impl Relief {
    pub open spec fn param(self) -> nat {
        match self {
            Relief::Divide(d) => d as nat,
            Relief::Modulo(m) => m as nat,
        }
    }

    pub open spec fn spec_reduce(self, x: nat) -> nat {
        match self {
            Relief::Divide(d) => x / (d as nat),
            Relief::Modulo(m) => x % (m as nat),
        }
    }
}

/// One monkey: its rules and the items it currently holds.
#[derive(Debug)]
pub struct Monkey {
    pub operation: Operation,
    /// The divisor of the routing test.
    pub test: usize,
    /// Where an item goes when its reduced level is divisible by `test`.
    pub if_true: usize,
    /// Where an item goes otherwise.
    pub if_false: usize,
    /// The items held, in the order they will be inspected.
    pub items: VecDeque<usize>,
}

/// The monkey that receives an item whose reduced level is `worry`.
pub open spec fn target(m: Monkey, worry: nat) -> usize {
    if worry % (m.test as nat) == 0 {
        m.if_true
    } else {
        m.if_false
    }
}

/// What inspecting `item` yields: the receiving monkey and the new level, or
/// `None` where the operation leaves `usize`.
pub open spec fn inspect_spec(m: Monkey, relief: Relief, item: usize) -> Option<(usize, usize)> {
    let t = m.operation.spec_apply(item as nat);
    if t > usize::MAX {
        None
    } else {
        let w = relief.spec_reduce(t);
        Some((target(m, w), w as usize))
    }
}

/// Two monkeys follow the same rules (their items may differ).
pub open spec fn same_rules(a: Monkey, b: Monkey) -> bool {
    &&& a.operation == b.operation
    &&& a.test == b.test
    &&& a.if_true == b.if_true
    &&& a.if_false == b.if_false
}

impl Monkey {
    /// A monkey with the given rules and no items.
    pub fn new(operation: Operation, test: usize, if_true: usize, if_false: usize) -> (r: Self)
        ensures
            r.operation == operation,
            r.test == test,
            r.if_true == if_true,
            r.if_false == if_false,
            r.items@ == Seq::<usize>::empty(),
    {
        Monkey { operation, test, if_true, if_false, items: VecDeque::new() }
    }

    /// Puts `item` at the end of this monkey's queue.
    pub fn catch(&mut self, item: usize)
        ensures
            same_rules(*final(self), *old(self)),
            final(self).items@ == old(self).items@.push(item),
    {
        self.items.push_back(item);
    }

    /// Takes the first item, if any, and inspects it under `relief`.
    fn inspect_next_item(&mut self, relief: Relief) -> (r: Option<(usize, usize)>)
        requires
            old(self).test > 0,
            relief.param() > 0,
            old(self).items@.len() > 0 ==> inspect_spec(*old(self), relief, old(self).items@[0]) is Some,
        ensures
            same_rules(*final(self), *old(self)),
            old(self).items@.len() == 0 ==> r is None && final(self).items@ == old(self).items@,
            old(self).items@.len() > 0 ==> r == inspect_spec(*old(self), relief, old(self).items@[0])
                && final(self).items@ == old(self).items@.drop_first(),
    {
        match self.items.pop_front() {
            None => None,
            Some(item) => {
                let t = self.operation.apply(item);
                let w = match relief {
                    Relief::Divide(d) => t / d,
                    Relief::Modulo(m) => t % m,
                };
                if w % self.test == 0 {
                    Some((self.if_true, w))
                } else {
                    Some((self.if_false, w))
                }
            },
        }
    }

    /// Takes the first item, if any, applies the operation, divides by
    /// `normalizer`, and says where the result goes.
    pub fn inspect_next_item_divide(&mut self, normalizer: usize) -> (r: Option<(usize, usize)>)
        requires
            old(self).test > 0,
            normalizer > 0,
            old(self).items@.len() > 0 ==> inspect_spec(
                *old(self),
                Relief::Divide(normalizer),
                old(self).items@[0],
            ) is Some,
        ensures
            same_rules(*final(self), *old(self)),
            old(self).items@.len() == 0 ==> r is None && final(self).items@ == old(self).items@,
            old(self).items@.len() > 0 ==> r == inspect_spec(
                *old(self),
                Relief::Divide(normalizer),
                old(self).items@[0],
            ) && final(self).items@ == old(self).items@.drop_first(),
    {
        self.inspect_next_item(Relief::Divide(normalizer))
    }

    /// Takes the first item, if any, applies the operation, reduces it modulo
    /// `normalizer`, and says where the result goes.
    pub fn inspect_next_item_modulo(&mut self, normalizer: usize) -> (r: Option<(usize, usize)>)
        requires
            old(self).test > 0,
            normalizer > 0,
            old(self).items@.len() > 0 ==> inspect_spec(
                *old(self),
                Relief::Modulo(normalizer),
                old(self).items@[0],
            ) is Some,
        ensures
            same_rules(*final(self), *old(self)),
            old(self).items@.len() == 0 ==> r is None && final(self).items@ == old(self).items@,
            old(self).items@.len() > 0 ==> r == inspect_spec(
                *old(self),
                Relief::Modulo(normalizer),
                old(self).items@[0],
            ) && final(self).items@ == old(self).items@.drop_first(),
    {
        self.inspect_next_item(Relief::Modulo(normalizer))
    }
}


/// The queues of all monkeys, in population order.
pub open spec fn queues_of(ms: Seq<Monkey>) -> Seq<Seq<usize>> {
    Seq::new(ms.len(), |i: int| ms[i].items@)
}

/// Every divisor is positive and every target is a monkey of `ms`.
pub open spec fn well_formed(ms: Seq<Monkey>) -> bool {
    forall|i: int|
        0 <= i < ms.len() ==> {
            &&& #[trigger] ms[i].test > 0
            &&& ms[i].if_true < ms.len()
            &&& ms[i].if_false < ms.len()
        }
}

/// Monkey `i`'s turn, from queues `qs` and inspection counts `cs`: it
/// inspects the front of its own queue until that queue is empty, including
/// items it throws to itself. `None` where an operation or the monkey's count
/// would leave `usize`; this is also what stops a monkey that keeps throwing
/// items back to itself.
pub open spec fn turn_spec(
    ms: Seq<Monkey>,
    relief: Relief,
    i: int,
    qs: Seq<Seq<usize>>,
    cs: Seq<usize>,
) -> Option<(Seq<Seq<usize>>, Seq<usize>)>
    decreases usize::MAX - cs[i],
{
    if !(0 <= i < cs.len() && i < qs.len() && i < ms.len()) {
        None
    } else if qs[i].len() == 0 {
        Some((qs, cs))
    } else if cs[i] >= usize::MAX {
        None
    } else {
        match inspect_spec(ms[i], relief, qs[i][0]) {
            None => None,
            Some((to, w)) => {
                let q1 = qs.update(i, qs[i].drop_first());
                let q2 = q1.update(to as int, q1[to as int].push(w));
                turn_spec(ms, relief, i, q2, cs.update(i, (cs[i] + 1) as usize))
            },
        }
    }
}

/// The turns of monkeys `j`, `j + 1`, ... to the last, one after another.
pub open spec fn round_from(
    ms: Seq<Monkey>,
    relief: Relief,
    j: int,
    qs: Seq<Seq<usize>>,
    cs: Seq<usize>,
) -> Option<(Seq<Seq<usize>>, Seq<usize>)>
    decreases ms.len() - j,
{
    if j >= ms.len() {
        Some((qs, cs))
    } else {
        match turn_spec(ms, relief, j, qs, cs) {
            None => None,
            Some((q2, c2)) => round_from(ms, relief, j + 1, q2, c2),
        }
    }
}

/// One round: every monkey takes its turn, in order.
pub open spec fn round_spec(
    ms: Seq<Monkey>,
    relief: Relief,
    qs: Seq<Seq<usize>>,
    cs: Seq<usize>,
) -> Option<(Seq<Seq<usize>>, Seq<usize>)> {
    round_from(ms, relief, 0, qs, cs)
}

/// `rounds` rounds, one after another.
pub open spec fn run_spec(
    ms: Seq<Monkey>,
    relief: Relief,
    rounds: nat,
    qs: Seq<Seq<usize>>,
    cs: Seq<usize>,
) -> Option<(Seq<Seq<usize>>, Seq<usize>)>
    decreases rounds,
{
    if rounds == 0 {
        Some((qs, cs))
    } else {
        match round_spec(ms, relief, qs, cs) {
            None => None,
            Some((q2, c2)) => run_spec(ms, relief, (rounds - 1) as nat, q2, c2),
        }
    }
}

/// Monkey `idx` takes its turn; its inspections are added to
/// `observer[idx]`. Returns false, leaving the state part way, where the turn
/// cannot complete within `usize`.
pub fn take_turn(monkeys: &mut Vec<Monkey>, observer: &mut Vec<usize>, idx: usize, relief: Relief) -> (ok: bool)
    requires
        well_formed(old(monkeys)@),
        old(observer)@.len() == old(monkeys)@.len(),
        idx < old(monkeys)@.len(),
        relief.param() > 0,
    ensures
        final(monkeys)@.len() == old(monkeys)@.len(),
        final(observer)@.len() == old(observer)@.len(),
        forall|k: int| 0 <= k < old(monkeys)@.len()
            ==> #[trigger] same_rules(final(monkeys)@[k], old(monkeys)@[k]),
        ok == turn_spec(old(monkeys)@, relief, idx as int, queues_of(old(monkeys)@), old(observer)@) is Some,
        ok ==> turn_spec(old(monkeys)@, relief, idx as int, queues_of(old(monkeys)@), old(observer)@)
            == Some((queues_of(final(monkeys)@), final(observer)@)),
        ok ==> final(monkeys)@[idx as int].items@.len() == 0,
{
    let ghost ms0 = monkeys@;
    let ghost cs0 = observer@;
    loop
        invariant
            ms0 == old(monkeys)@,
            cs0 == old(observer)@,
            cs0.len() == ms0.len(),
            monkeys@.len() == ms0.len(),
            observer@.len() == ms0.len(),
            idx < ms0.len(),
            well_formed(ms0),
            relief.param() > 0,
            forall|k: int| 0 <= k < ms0.len() ==> #[trigger] same_rules(monkeys@[k], ms0[k]),
            turn_spec(ms0, relief, idx as int, queues_of(ms0), cs0)
                == turn_spec(ms0, relief, idx as int, queues_of(monkeys@), observer@),
        decreases usize::MAX - observer@[idx as int],
    {
        if monkeys[idx].items.len() == 0 {
            assert(queues_of(monkeys@)[idx as int].len() == 0);
            return true;
        }
        if observer[idx] == usize::MAX {
            return false;
        }
        let item = monkeys[idx].items[0];
        if !monkeys[idx].operation.can_apply(item) {
            assert(same_rules(monkeys@[idx as int], ms0[idx as int]));
            return false;
        }
        let ghost qs = queues_of(monkeys@);
        let ghost cs = observer@;
        let ghost before = monkeys@;
        assert(same_rules(monkeys@[idx as int], ms0[idx as int]));
        assert(qs[idx as int][0] == item);
        let r = monkeys[idx].inspect_next_item(relief);
        let (to, w) = match r {
            Some(p) => p,
            None => {
                return false;
            },
        };
        assert(inspect_spec(ms0[idx as int], relief, item) == Some((to, w)));
        let ghost mid = monkeys@;
        assert(forall|k: int| 0 <= k < ms0.len() && k != idx ==> mid[k] == before[k]);
        let c = observer[idx];
        observer.set(idx, c + 1);
        monkeys[to].catch(w);
        proof {
            assert(forall|k: int| 0 <= k < ms0.len() && k != to ==> monkeys@[k] == mid[k]);
            assert forall|k: int| 0 <= k < ms0.len() implies #[trigger] same_rules(monkeys@[k], ms0[k]) by {
                assert(same_rules(before[k], ms0[k]));
            }
            let q1 = qs.update(idx as int, qs[idx as int].drop_first());
            let q2 = q1.update(to as int, q1[to as int].push(w));
            assert(queues_of(monkeys@) =~= q2);
            assert(observer@ =~= cs.update(idx as int, (cs[idx as int] + 1) as usize));
        }
    }
}


/// Whether every divisor is positive and every target is a monkey of
/// `monkeys`: what the rounds need of a population.
pub fn is_well_formed(monkeys: &Vec<Monkey>) -> (r: bool)
    ensures
        r == well_formed(monkeys@),
{
    let n = monkeys.len();
    let mut i: usize = 0;
    while i < n
        invariant
            n == monkeys@.len(),
            i <= n,
            forall|k: int| 0 <= k < i ==> {
                &&& #[trigger] monkeys@[k].test > 0
                &&& monkeys@[k].if_true < n
                &&& monkeys@[k].if_false < n
            },
        decreases n - i,
    {
        let m = &monkeys[i];
        if m.test == 0 || m.if_true >= n || m.if_false >= n {
            assert(!(monkeys@[i as int].test > 0 && monkeys@[i as int].if_true < n && monkeys@[i as int].if_false < n));
            return false;
        }
        i += 1;
    }
    true
}

/// Two populations of the same size whose monkeys follow the same rules.
pub open spec fn same_rules_all(a: Seq<Monkey>, b: Seq<Monkey>) -> bool {
    &&& a.len() == b.len()
    &&& forall|k: int| 0 <= k < a.len() ==> #[trigger] same_rules(a[k], b[k])
}

proof fn lemma_turn_same_rules(
    a: Seq<Monkey>,
    b: Seq<Monkey>,
    relief: Relief,
    i: int,
    qs: Seq<Seq<usize>>,
    cs: Seq<usize>,
)
    requires
        same_rules_all(a, b),
    ensures
        turn_spec(a, relief, i, qs, cs) == turn_spec(b, relief, i, qs, cs),
    decreases usize::MAX - cs[i],
{
    if 0 <= i < cs.len() && i < qs.len() && i < a.len() && qs[i].len() > 0 && cs[i] < usize::MAX {
        assert(same_rules(a[i], b[i]));
        match inspect_spec(a[i], relief, qs[i][0]) {
            None => {},
            Some((to, w)) => {
                let q1 = qs.update(i, qs[i].drop_first());
                let q2 = q1.update(to as int, q1[to as int].push(w));
                lemma_turn_same_rules(a, b, relief, i, q2, cs.update(i, (cs[i] + 1) as usize));
            },
        }
    }
}

proof fn lemma_round_from_same_rules(
    a: Seq<Monkey>,
    b: Seq<Monkey>,
    relief: Relief,
    j: int,
    qs: Seq<Seq<usize>>,
    cs: Seq<usize>,
)
    requires
        same_rules_all(a, b),
    ensures
        round_from(a, relief, j, qs, cs) == round_from(b, relief, j, qs, cs),
    decreases a.len() - j,
{
    if j < a.len() {
        lemma_turn_same_rules(a, b, relief, j, qs, cs);
        match turn_spec(a, relief, j, qs, cs) {
            None => {},
            Some((q2, c2)) => lemma_round_from_same_rules(a, b, relief, j + 1, q2, c2),
        }
    }
}

/// A run depends on the monkeys' rules, the queues and the counts alone:
/// two populations built from the same descriptions end every run with the
/// same queues and the same counts, or both fail.
pub proof fn lemma_run_deterministic(
    a: Seq<Monkey>,
    b: Seq<Monkey>,
    relief: Relief,
    rounds: nat,
    qs: Seq<Seq<usize>>,
    cs: Seq<usize>,
)
    requires
        same_rules_all(a, b),
    ensures
        run_spec(a, relief, rounds, qs, cs) == run_spec(b, relief, rounds, qs, cs),
    decreases rounds,
{
    if rounds > 0 {
        lemma_round_from_same_rules(a, b, relief, 0, qs, cs);
        match round_spec(a, relief, qs, cs) {
            None => {},
            Some((q2, c2)) => lemma_run_deterministic(a, b, relief, (rounds - 1) as nat, q2, c2),
        }
    }
}

/// One round: every monkey, in order, takes its turn. Returns false, leaving
/// the state part way, where a turn cannot complete within `usize`.
pub fn round(monkeys: &mut Vec<Monkey>, observer: &mut Vec<usize>, relief: Relief) -> (ok: bool)
    requires
        well_formed(old(monkeys)@),
        old(observer)@.len() == old(monkeys)@.len(),
        relief.param() > 0,
    ensures
        same_rules_all(final(monkeys)@, old(monkeys)@),
        final(observer)@.len() == old(observer)@.len(),
        ok == round_spec(old(monkeys)@, relief, queues_of(old(monkeys)@), old(observer)@) is Some,
        ok ==> round_spec(old(monkeys)@, relief, queues_of(old(monkeys)@), old(observer)@)
            == Some((queues_of(final(monkeys)@), final(observer)@)),
{
    let ghost ms0 = monkeys@;
    let ghost cs0 = observer@;
    let n = monkeys.len();
    let mut j: usize = 0;
    while j < n
        invariant
            ms0 == old(monkeys)@,
            cs0 == old(observer)@,
            cs0.len() == ms0.len(),
            n == ms0.len(),
            j <= n,
            well_formed(ms0),
            relief.param() > 0,
            same_rules_all(monkeys@, ms0),
            observer@.len() == n,
            round_spec(ms0, relief, queues_of(ms0), cs0)
                == round_from(ms0, relief, j as int, queues_of(monkeys@), observer@),
        decreases n - j,
    {
        let ghost cur = monkeys@;
        proof {
            lemma_well_formed_same_rules(ms0, cur);
            lemma_turn_same_rules(cur, ms0, relief, j as int, queues_of(cur), observer@);
        }
        let ok = take_turn(monkeys, observer, j, relief);
        assert(same_rules_all(monkeys@, ms0)) by {
            assert forall|k: int| 0 <= k < ms0.len() implies #[trigger] same_rules(monkeys@[k], ms0[k]) by {
                assert(same_rules(monkeys@[k], cur[k]));
                assert(same_rules(cur[k], ms0[k]));
            }
        }
        if !ok {
            return false;
        }
        j += 1;
    }
    true
}

proof fn lemma_well_formed_same_rules(a: Seq<Monkey>, b: Seq<Monkey>)
    requires
        well_formed(a),
        same_rules_all(b, a),
    ensures
        well_formed(b),
{
    assert forall|i: int| 0 <= i < b.len() implies #[trigger] b[i].test > 0 && b[i].if_true < b.len()
        && b[i].if_false < b.len() by {
        assert(same_rules(b[i], a[i]));
    }
}


/// One round in which each new worry level is divided by `normalizer`.
pub fn round_part_one(monkeys: Vec<Monkey>, observer: &mut Vec<usize>, normalizer: usize) -> (r: Vec<Monkey>)
    requires
        well_formed(monkeys@),
        old(observer)@.len() == monkeys@.len(),
        normalizer > 0,
        round_spec(monkeys@, Relief::Divide(normalizer), queues_of(monkeys@), old(observer)@) is Some,
    ensures
        same_rules_all(r@, monkeys@),
        round_spec(monkeys@, Relief::Divide(normalizer), queues_of(monkeys@), old(observer)@)
            == Some((queues_of(r@), final(observer)@)),
{
    let mut monkeys = monkeys;
    round(&mut monkeys, observer, Relief::Divide(normalizer));
    monkeys
}

/// One round in which each new worry level is reduced modulo `normalizer`.
pub fn round_part_two(monkeys: Vec<Monkey>, observer: &mut Vec<usize>, normalizer: usize) -> (r: Vec<Monkey>)
    requires
        well_formed(monkeys@),
        old(observer)@.len() == monkeys@.len(),
        normalizer > 0,
        round_spec(monkeys@, Relief::Modulo(normalizer), queues_of(monkeys@), old(observer)@) is Some,
    ensures
        same_rules_all(r@, monkeys@),
        round_spec(monkeys@, Relief::Modulo(normalizer), queues_of(monkeys@), old(observer)@)
            == Some((queues_of(r@), final(observer)@)),
{
    let mut monkeys = monkeys;
    round(&mut monkeys, observer, Relief::Modulo(normalizer));
    monkeys
}

/// A count of zero for each of `n` monkeys.
pub open spec fn zero_counts(n: nat) -> Seq<usize> {
    Seq::new(n, |i: int| 0usize)
}

/// Runs `rounds` rounds from zero counts and returns each monkey's number of
/// inspections, in population order; `None` where the run cannot complete
/// within `usize`.
pub fn run(monkeys: Vec<Monkey>, rounds: usize, relief: Relief) -> (r: Option<Vec<usize>>)
    requires
        well_formed(monkeys@),
        relief.param() > 0,
    ensures
        r is Some <==> run_spec(
            monkeys@,
            relief,
            rounds as nat,
            queues_of(monkeys@),
            zero_counts(monkeys@.len()),
        ) is Some,
        r is Some ==> r.unwrap()@ == run_spec(
            monkeys@,
            relief,
            rounds as nat,
            queues_of(monkeys@),
            zero_counts(monkeys@.len()),
        ).unwrap().1,
{
    let ghost ms0 = monkeys@;
    let mut flock = monkeys;
    let n = flock.len();
    let mut observer: Vec<usize> = Vec::new();
    let mut k: usize = 0;
    while k < n
        invariant
            k <= n,
            observer@ == zero_counts(k as nat),
        decreases n - k,
    {
        observer.push(0);
        k += 1;
        assert(observer@ =~= zero_counts(k as nat));
    }
    let mut done: usize = 0;
    while done < rounds
        invariant
            done <= rounds,
            ms0 == monkeys@,
            n == ms0.len(),
            well_formed(ms0),
            relief.param() > 0,
            same_rules_all(flock@, ms0),
            observer@.len() == n,
            run_spec(ms0, relief, rounds as nat, queues_of(ms0), zero_counts(n as nat))
                == run_spec(ms0, relief, (rounds - done) as nat, queues_of(flock@), observer@),
        decreases rounds - done,
    {
        let ghost cur = flock@;
        let ghost cs = observer@;
        proof {
            lemma_well_formed_same_rules(ms0, cur);
            lemma_round_from_same_rules(cur, ms0, relief, 0, queues_of(cur), observer@);
        }
        let ok = round(&mut flock, &mut observer, relief);
        assert(same_rules_all(flock@, ms0)) by {
            assert forall|k: int| 0 <= k < ms0.len() implies #[trigger] same_rules(flock@[k], ms0[k]) by {
                assert(same_rules(flock@[k], cur[k]));
                assert(same_rules(cur[k], ms0[k]));
            }
        }
        if !ok {
            assert(run_spec(ms0, relief, (rounds - done) as nat, queues_of(cur), cs) is None);
            return None;
        }
        done += 1;
    }
    Some(observer)
}

/// The product of the test divisors of `ms`.
pub open spec fn divisor_product_spec(ms: Seq<Monkey>) -> nat
    decreases ms.len(),
{
    if ms.len() == 0 {
        1
    } else {
        divisor_product_spec(ms.drop_last()) * (ms.last().test as nat)
    }
}

proof fn lemma_divisor_product_grows(ms: Seq<Monkey>, i: int)
    requires
        forall|k: int| 0 <= k < ms.len() ==> #[trigger] ms[k].test > 0,
        0 <= i <= ms.len(),
    ensures
        divisor_product_spec(ms.subrange(0, i)) <= divisor_product_spec(ms),
    decreases ms.len(),
{
    if i < ms.len() {
        let p = ms.drop_last();
        assert(p.subrange(0, i) =~= ms.subrange(0, i));
        assert(ms[ms.len() - 1].test > 0);
        assert(forall|k: int| 0 <= k < p.len() ==> p[k] == ms[k]);
        lemma_divisor_product_grows(p, i);
        let a = divisor_product_spec(p);
        let t = ms.last().test as nat;
        assert(a <= a * t) by (nonlinear_arith)
            requires
                t >= 1,
        ;
    } else {
        assert(ms.subrange(0, i) =~= ms);
    }
}

/// The modulus for `Relief::Modulo`: the product of all test divisors, or
/// `None` where it does not fit in `usize`.
pub fn divisor_product(monkeys: &Vec<Monkey>) -> (r: Option<usize>)
    requires
        well_formed(monkeys@),
    ensures
        divisor_product_spec(monkeys@) <= usize::MAX ==> r == Some(divisor_product_spec(monkeys@) as usize),
        divisor_product_spec(monkeys@) > usize::MAX ==> r is None,
{
    let mut acc: usize = 1;
    let mut i: usize = 0;
    while i < monkeys.len()
        invariant
            i <= monkeys@.len(),
            well_formed(monkeys@),
            acc as nat == divisor_product_spec(monkeys@.subrange(0, i as int)),
        decreases monkeys@.len() - i,
    {
        let t = monkeys[i].test;
        proof {
            let s = monkeys@.subrange(0, i as int + 1);
            assert(s.drop_last() =~= monkeys@.subrange(0, i as int));
        }
        match acc.checked_mul(t) {
            Some(v) => {
                acc = v;
            },
            None => {
                proof {
                    assert(forall|k: int| 0 <= k < monkeys@.len() ==> #[trigger] monkeys@[k].test > 0);
                    lemma_divisor_product_grows(monkeys@, i as int + 1);
                }
                return None;
            },
        }
        i += 1;
    }
    assert(monkeys@.subrange(0, i as int) =~= monkeys@);
    Some(acc)
}


/// Reducing modulo a multiple of the test divisor changes no routing
/// decision. Where the reduced level `r` agrees with the unbounded level `w`
/// modulo `k`, and `k` is a multiple of the monkey's divisor, then after the
/// monkey's operation the reduced result still agrees with the unbounded one
/// modulo `k`, and both are thrown to the same monkey. By induction along an
/// item's path this holds for every inspection of every round.
pub proof fn lemma_modulo_keeps_routing(m: Monkey, k: usize, w: nat, r: nat)
    requires
        m.test > 0,
        k > 0,
        k % m.test == 0,
        r % (k as nat) == w % (k as nat),
    ensures
        Relief::Modulo(k).spec_reduce(m.operation.spec_apply(r)) % (k as nat)
            == m.operation.spec_apply(w) % (k as nat),
        target(m, Relief::Modulo(k).spec_reduce(m.operation.spec_apply(r)))
            == target(m, m.operation.spec_apply(w)),
{
    let kk = k as int;
    let x = m.operation.spec_apply(r) as int;
    let y = m.operation.spec_apply(w) as int;
    match m.operation {
        Operation::Add(a) => {
            lemma_add_mod_noop(r as int, a as int, kk);
            lemma_add_mod_noop(w as int, a as int, kk);
        },
        Operation::Mul(a) => {
            lemma_mul_mod_noop(r as int, a as int, kk);
            lemma_mul_mod_noop(w as int, a as int, kk);
        },
        Operation::Square => {
            lemma_mul_mod_noop(r as int, r as int, kk);
            lemma_mul_mod_noop(w as int, w as int, kk);
        },
    }
    assert(x % kk == y % kk);
    lemma_mod_twice(x, kk);
    let t = m.test as int;
    let q = kk / t;
    assert(kk == t * q) by {
        vstd::arithmetic::div_mod::lemma_fundamental_div_mod(kk, t);
    }
    assert(q > 0) by (nonlinear_arith)
        requires
            kk == t * q,
            kk > 0,
            t > 0,
    ;
    lemma_mod_mod(x, t, q);
    lemma_mod_mod(y, t, q);
    assert((x % kk) % t == y % t);
}


/// `a` is a prefix of `b`.
pub open spec fn is_prefix(a: Seq<usize>, b: Seq<usize>) -> bool {
    a.len() <= b.len() && b.subrange(0, a.len() as int) == a
}

/// A completed turn of monkey `i` leaves its own queue empty, even where it
/// threw items to itself during the turn. Every other queue only grows at its
/// end and keeps its count, and monkey `i` inspects at least every item it
/// held when the turn began.
pub proof fn lemma_turn_effects(
    ms: Seq<Monkey>,
    relief: Relief,
    i: int,
    qs: Seq<Seq<usize>>,
    cs: Seq<usize>,
    q2: Seq<Seq<usize>>,
    c2: Seq<usize>,
)
    requires
        well_formed(ms),
        qs.len() == ms.len(),
        cs.len() == ms.len(),
        turn_spec(ms, relief, i, qs, cs) == Some((q2, c2)),
    ensures
        q2.len() == qs.len(),
        c2.len() == cs.len(),
        q2[i].len() == 0,
        c2[i] >= cs[i] + qs[i].len(),
        forall|j: int| 0 <= j < ms.len() && j != i ==> #[trigger] is_prefix(qs[j], q2[j]),
        forall|j: int| 0 <= j < ms.len() && j != i ==> #[trigger] c2[j] == cs[j],
    decreases usize::MAX - cs[i],
{
    if qs[i].len() > 0 {
        let (to, w) = inspect_spec(ms[i], relief, qs[i][0]).unwrap();
        assert(to < ms.len());
        let q1 = qs.update(i, qs[i].drop_first());
        let qn = q1.update(to as int, q1[to as int].push(w));
        let cn = cs.update(i, (cs[i] + 1) as usize);
        lemma_turn_effects(ms, relief, i, qn, cn, q2, c2);
        assert(forall|j: int| 0 <= j < ms.len() && j != i ==> #[trigger] c2[j] == cn[j]);
        assert forall|j: int| 0 <= j < ms.len() && j != i implies #[trigger] is_prefix(qs[j], q2[j]) by {
            assert(is_prefix(qn[j], q2[j]));
            assert(qn[j].subrange(0, qs[j].len() as int) =~= qs[j]);
            assert(q2[j].subrange(0, qs[j].len() as int) =~= qn[j].subrange(0, qs[j].len() as int));
        }
    } else {
        assert forall|j: int| 0 <= j < ms.len() && j != i implies #[trigger] is_prefix(qs[j], q2[j]) by {
            assert(q2[j].subrange(0, qs[j].len() as int) =~= qs[j]);
        }
    }
}

/// When monkey `k` is about to take its turn, every item then waiting at a
/// monkey `j >= k` is inspected by `j` in this same round, while monkeys
/// `j < k`, whose turns are over, inspect nothing more: what reaches them now
/// waits, behind what they already hold, for the next round.
pub proof fn lemma_round_order(
    ms: Seq<Monkey>,
    relief: Relief,
    k: int,
    qs: Seq<Seq<usize>>,
    cs: Seq<usize>,
    fq: Seq<Seq<usize>>,
    fc: Seq<usize>,
)
    requires
        well_formed(ms),
        0 <= k <= ms.len(),
        qs.len() == ms.len(),
        cs.len() == ms.len(),
        round_from(ms, relief, k, qs, cs) == Some((fq, fc)),
    ensures
        fq.len() == qs.len(),
        fc.len() == cs.len(),
        forall|j: int| 0 <= j < k ==> #[trigger] is_prefix(qs[j], fq[j]),
        forall|j: int| 0 <= j < k ==> #[trigger] fc[j] == cs[j],
        forall|j: int| k <= j < ms.len() ==> #[trigger] fc[j] >= cs[j] + qs[j].len(),
    decreases ms.len() - k,
{
    if k < ms.len() {
        let (q2, c2) = turn_spec(ms, relief, k, qs, cs).unwrap();
        lemma_turn_effects(ms, relief, k, qs, cs, q2, c2);
        lemma_round_order(ms, relief, k + 1, q2, c2, fq, fc);
        assert(forall|j: int| 0 <= j < k ==> #[trigger] fc[j] == c2[j]);
        assert(forall|j: int| 0 <= j < k ==> #[trigger] c2[j] == cs[j]);
        assert forall|j: int| 0 <= j < k implies #[trigger] is_prefix(qs[j], fq[j]) by {
            assert(is_prefix(q2[j], fq[j]));
            assert(is_prefix(qs[j], q2[j]));
            assert(fq[j].subrange(0, qs[j].len() as int) =~= q2[j].subrange(0, qs[j].len() as int));
        }
        assert forall|j: int| k <= j < ms.len() implies #[trigger] fc[j] >= cs[j] + qs[j].len() by {
            if j > k {
                assert(fc[j] >= c2[j] + q2[j].len());
                assert(c2[j] == cs[j]);
                assert(is_prefix(qs[j], q2[j]));
            }
        }
    } else {
        assert forall|j: int| 0 <= j < k implies #[trigger] is_prefix(qs[j], fq[j]) by {
            assert(fq[j].subrange(0, qs[j].len() as int) =~= qs[j]);
        }
    }
}


/// `c[a]` is a largest count, and `c[b]` a largest count of the others.
pub open spec fn is_top_two(c: Seq<usize>, a: int, b: int) -> bool {
    &&& 0 <= a < c.len()
    &&& 0 <= b < c.len()
    &&& a != b
    &&& forall|k: int| 0 <= k < c.len() ==> #[trigger] c[k] <= c[a]
    &&& forall|k: int| 0 <= k < c.len() && k != a ==> #[trigger] c[k] <= c[b]
}

/// The product of the two largest counts; `None` where there are fewer than
/// two counts or the product does not fit in `usize`.
pub fn monkey_business(counts: &Vec<usize>) -> (r: Option<usize>)
    ensures
        counts@.len() < 2 ==> r is None,
        counts@.len() >= 2 ==> exists|a: int, b: int|
            {
                &&& #[trigger] is_top_two(counts@, a, b)
                &&& counts@[a] * counts@[b] <= usize::MAX ==> r == Some((counts@[a] * counts@[b]) as usize)
                &&& counts@[a] * counts@[b] > usize::MAX ==> r is None
            },
{
    let n = counts.len();
    if n < 2 {
        return None;
    }
    let mut a: usize = 0;
    let mut i: usize = 1;
    while i < n
        invariant
            n == counts@.len(),
            1 <= i <= n,
            a < i,
            forall|k: int| 0 <= k < i ==> #[trigger] counts@[k] <= counts@[a as int],
        decreases n - i,
    {
        if counts[i] > counts[a] {
            a = i;
        }
        i += 1;
    }
    let mut b: usize = if a == 0 { 1 } else { 0 };
    let mut j: usize = 0;
    while j < n
        invariant
            n == counts@.len(),
            j <= n,
            a < n,
            b < n,
            b != a,
            forall|k: int| 0 <= k < n ==> #[trigger] counts@[k] <= counts@[a as int],
            forall|k: int| 0 <= k < j && k != a ==> #[trigger] counts@[k] <= counts@[b as int],
        decreases n - j,
    {
        if j != a && counts[j] > counts[b] {
            b = j;
        }
        j += 1;
    }
    assert(is_top_two(counts@, a as int, b as int));
    counts[a].checked_mul(counts[b])
}

} // verus!
