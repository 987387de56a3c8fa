//! The account of a ring buffer shared by a producer and a consumer.
//!
//! Both positions run modulo twice the size of the ring, which tells a full
//! ring from an empty one. The account never blocks: where the consumer has to
//! wait, it is told so, and the producer is told whom to wake.

use vstd::arithmetic::div_mod::{
    lemma_add_mod_noop, lemma_mod_mod, lemma_mod_multiples_vanish, lemma_mod_twice, lemma_small_mod,
};
use vstd::prelude::*;

verus! {

/// More was produced than the ring has room for.
#[derive(Clone, Copy, Debug, PartialEq, Eq, Structural)]
pub enum ProduceError {
    /// The amount is larger than the ring.
    TooLarge,
    /// The amount is larger than the room that is left.
    NoRoom,
}

/// The account of one ring.
pub struct Produconsum {
    size: usize,
    produced: usize,
    consumed: usize,
    at_end: bool,
    consumer_waiting: bool,
    name: &'static str,
}

/// What an account says.
pub struct Account {
    /// What the ring is called.
    pub name: Seq<char>,
    /// The size of the ring.
    pub size: int,
    /// What was consumed so far, modulo twice the size.
    pub consumed: int,
    /// What was produced and not yet consumed.
    pub waiting: int,
    /// The producer is done.
    pub at_end: bool,
    /// The consumer waits for more.
    pub consumer_waiting: bool,
}

/// `x` modulo twice the size of a ring; an empty ring has one position only.
pub open spec fn wrapped(x: int, size: int) -> int {
    if size == 0 {
        0
    } else {
        x % (2 * size)
    }
}

impl View for Produconsum {
    type V = Account;

    closed spec fn view(&self) -> Account {
        Account {
            name: self.name@,
            size: self.size as int,
            consumed: self.consumed as int,
            waiting: wrapped(self.produced - self.consumed, self.size as int),
            at_end: self.at_end,
            consumer_waiting: self.consumer_waiting,
        }
    }
}

impl Account {
    /// What waits after `amount` more was produced.
    pub open spec fn waiting_after(self, amount: int) -> int {
        wrapped(self.waiting + amount, self.size)
    }

    /// Why `amount` cannot be produced, if it cannot.
    pub open spec fn refusal(self, amount: int) -> Option<ProduceError> {
        if amount > self.size {
            Some(ProduceError::TooLarge)
        } else if self.waiting_after(amount) > self.size {
            Some(ProduceError::NoRoom)
        } else {
            None
        }
    }

    /// After `amount` more was produced.
    pub open spec fn with_produced(self, amount: int) -> Account {
        Account { waiting: self.waiting_after(amount), ..self }
    }

    /// After `amount` was consumed.
    pub open spec fn with_consumed(self, amount: int) -> Account {
        Account {
            consumed: wrapped(self.consumed + amount, self.size),
            waiting: wrapped(self.waiting - amount, self.size),
            ..self
        }
    }

    /// What the consumer gets that asks for at least `min_amount`, or `None` if
    /// it has to wait. At the end, and once its time is over, it gets what
    /// there is.
    pub open spec fn share(self, min_amount: int, expired: bool) -> Option<int> {
        if self.waiting >= min_amount || self.at_end || expired {
            Some(self.waiting)
        } else {
            None
        }
    }

    /// After the consumer asked and got `got`.
    pub open spec fn asked(self, got: Option<int>) -> Account {
        Account { consumer_waiting: got is None, ..self }
    }

    /// How many bytes there are from the consumer's position to the end of the
    /// ring.
    pub open spec fn contiguous(self) -> int {
        self.size - self.consumed % self.size
    }
}

/// `got` as the number that an answer of the account holds.
pub open spec fn amount_of(got: Option<usize>) -> Option<int> {
    match got {
        Some(n) => Some(n as int),
        None => None,
    }
}

/// Positions that are the same modulo twice the size are the same modulo the
/// size.
pub proof fn lemma_halved(x: int, size: int)
    requires
        size > 0,
    ensures
        wrapped(x, size) % size == x % size,
        0 <= wrapped(x, size) < 2 * size,
        0 <= x < 2 * size ==> wrapped(x, size) == x,
{
    lemma_mod_mod(x, size, 2);
    assert(size * 2 == 2 * size);
    if 0 <= x < 2 * size {
        lemma_small_mod(x as nat, (2 * size) as nat);
    }
}

/// Positions that differ by a multiple of twice the size are the same.
proof fn lemma_wrapped(x: int, k: int, size: int)
    requires
        size >= 0,
    ensures
        wrapped(x + k * (2 * size), size) == wrapped(x, size),
        size > 0 && 0 <= x < 2 * size ==> wrapped(x, size) == x,
        size > 0 ==> 0 <= wrapped(x, size) < 2 * size,
{
    if size > 0 {
        lemma_mod_multiples_vanish(k, x, 2 * size);
        assert(2 * size * k + x == x + k * (2 * size)) by (nonlinear_arith);
        if 0 <= x < 2 * size {
            lemma_small_mod(x as nat, (2 * size) as nat);
        }
    }
}

/// Wrapping twice is wrapping once.
proof fn lemma_wrapped_sum(a: int, b: int, size: int)
    requires
        size >= 0,
    ensures
        wrapped(wrapped(a, size) + b, size) == wrapped(a + b, size),
{
    if size > 0 {
        lemma_add_mod_noop(a, b, 2 * size);
        lemma_add_mod_noop(wrapped(a, size), b, 2 * size);
        lemma_mod_twice(a, 2 * size);
    }
}

/// What fits is taken, and what does not is refused: `amount` more can be produced
/// exactly if it is no more than the room that is left. Producing adds just that, and
/// leaves the consumer where it stands. A full ring that is to take its whole size again
/// is left out: there the two cannot be told apart.
pub proof fn law_what_fits_is_taken(a: Account, amount: int)
    requires
        a.size > 0,
        0 <= a.waiting <= a.size,
        0 <= amount,
        a.waiting + amount != 2 * a.size,
    ensures
        a.refusal(amount) is None <==> amount <= a.size - a.waiting,
        amount <= a.size - a.waiting ==> a.with_produced(amount).waiting == a.waiting + amount,
        a.with_produced(amount).consumed == a.consumed,
        a.with_produced(amount).size == a.size,
        a.with_produced(amount).at_end == a.at_end,
{
    if amount <= a.size {
        lemma_halved(a.waiting + amount, a.size);
    }
}

/// Consuming takes just that off, and moves the consumer on by as much.
pub proof fn law_what_is_taken_is_gone(a: Account, amount: int)
    requires
        a.size > 0,
        0 <= amount <= a.waiting <= a.size,
        0 <= a.consumed < 2 * a.size,
    ensures
        a.with_consumed(amount).waiting == a.waiting - amount,
        a.with_consumed(amount).consumed % a.size == (a.consumed + amount) % a.size,
        a.with_consumed(amount).consumed == a.consumed + amount || a.with_consumed(amount).consumed
            == a.consumed + amount - 2 * a.size,
        0 <= a.with_consumed(amount).consumed < 2 * a.size,
        a.with_consumed(amount).size == a.size,
        a.with_consumed(amount).at_end == a.at_end,
{
    lemma_halved(a.waiting - amount, a.size);
    lemma_halved(a.consumed + amount, a.size);
    lemma_wrapped(a.consumed + amount, -1, a.size);
    if a.consumed + amount >= 2 * a.size {
        lemma_wrapped(a.consumed + amount - 2 * a.size, 0, a.size);
    }
}

/// Whoever asks gets all that waits, or waits itself: it waits exactly while there is
/// less than it asks for, more can come, and its time is not over.
pub proof fn law_waiting_for_enough(a: Account, min_amount: int, expired: bool)
    ensures
        a.share(min_amount, expired) matches Some(n) ==> n == a.waiting,
        a.share(min_amount, expired) is None <==> a.waiting < min_amount && !a.at_end && !expired,
        a.asked(a.share(min_amount, expired)).consumer_waiting == (a.share(
            min_amount,
            expired,
        ) is None),
        a.asked(a.share(min_amount, expired)).waiting == a.waiting,
{
}

/// Consuming what was produced leaves the account's waiting amount as it was.
pub proof fn law_consuming_undoes_producing(a: Account, amount: int)
    requires
        a.size >= 0,
        a.waiting == wrapped(a.waiting, a.size),
    ensures
        a.with_produced(amount).with_consumed(amount).waiting == a.waiting,
{
    lemma_wrapped_sum(a.waiting + amount, -amount, a.size);
}

impl Produconsum {
    /// The positions are in range.
    pub closed spec fn wf(&self) -> bool {
        &&& 2 * self.size <= usize::MAX
        &&& self.size == 0 ==> self.produced == 0 && self.consumed == 0
        &&& self.size > 0 ==> self.produced < 2 * self.size && self.consumed < 2 * self.size
    }

    /// What well-formedness tells a user of the account.
    pub proof fn lemma_wf(&self)
        requires
            self.wf(),
        ensures
            0 <= 2 * self@.size <= usize::MAX,
            self@.size == 0 ==> self@.waiting == 0 && self@.consumed == 0,
            self@.size > 0 ==> 0 <= self@.waiting < 2 * self@.size && 0 <= self@.consumed < 2
                * self@.size,
            self@.waiting == wrapped(self@.waiting, self@.size),
    {
        lemma_wrapped(self.produced - self.consumed, 0, self.size as int);
        lemma_wrapped(self@.waiting, 0, self.size as int);
    }

    /// The account of an empty ring.
    pub fn new(size: usize, name: &'static str) -> (r: Self)
        requires
            2 * size <= usize::MAX,
        ensures
            r.wf(),
            r@ == (Account {
                name: name@,
                size: size as int,
                consumed: 0,
                waiting: 0,
                at_end: false,
                consumer_waiting: false,
            }),
    {
        proof {
            lemma_wrapped(0, 0, size as int);
        }
        Produconsum { size, produced: 0, consumed: 0, at_end: false, consumer_waiting: false, name }
    }

    /// What waits for the consumer.
    pub fn get_waiting(&self) -> (r: usize)
        requires
            self.wf(),
        ensures
            r == self@.waiting,
    {
        proof {
            lemma_wrapped(self.produced - self.consumed, 1, self.size as int);
            lemma_wrapped(self.produced + 2 * self.size - self.consumed, 0, self.size as int);
            lemma_wrapped(self.produced - self.consumed, 0, self.size as int);
        }
        if self.produced < self.consumed {
            2 * self.size - self.consumed + self.produced
        } else {
            self.produced - self.consumed
        }
    }

    /// Puts `amount` at the consumer's disposal, and says whether it waits for
    /// that. Nothing changes if there is no room.
    pub fn produce(&mut self, amount: usize) -> (r: Result<bool, ProduceError>)
        requires
            old(self).wf(),
        ensures
            final(self).wf(),
            match old(self)@.refusal(amount as int) {
                Some(e) => r == Err::<bool, ProduceError>(e) && final(self)@ == old(self)@,
                None => {
                    &&& r == Ok::<bool, ProduceError>(old(self)@.consumer_waiting)
                    &&& final(self)@ == old(self)@.with_produced(amount as int)
                },
            },
    {
        if amount > self.size {
            return Err(ProduceError::TooLarge);
        }
        let limit: usize = 2 * self.size;
        let produced: usize = if self.produced >= limit - amount {
            self.produced - (limit - amount)
        } else {
            self.produced + amount
        };
        let waiting: usize = if produced < self.consumed {
            limit - self.consumed + produced
        } else {
            produced - self.consumed
        };
        proof {
            let size = self.size as int;
            let sum = self.produced + amount - self.consumed;
            lemma_wrapped_sum(self.produced - self.consumed, amount as int, size);
            lemma_wrapped(produced - self.consumed, 0, size);
            lemma_wrapped(produced - self.consumed, 1, size);
            lemma_wrapped(sum, -1, size);
            lemma_wrapped(waiting as int, 0, size);
            assert(self@.waiting_after(amount as int) == wrapped(sum, size));
        }
        if waiting > self.size {
            return Err(ProduceError::NoRoom);
        }
        self.produced = produced;
        Ok(self.consumer_waiting)
    }

    /// Declares that nothing more comes, and says whether the consumer waits.
    pub fn produce_end(&mut self) -> (r: bool)
        requires
            old(self).wf(),
        ensures
            final(self).wf(),
            final(self)@ == (Account { at_end: true, ..old(self)@ }),
            r == old(self)@.consumer_waiting,
    {
        self.at_end = true;
        self.consumer_waiting
    }

    /// Where in the ring the consumer stands.
    pub fn get_consumer_position(&self) -> (r: usize)
        requires
            self.wf(),
            self@.size > 0,
        ensures
            r == self@.consumed % self@.size,
            r < self@.size,
    {
        self.consumed % self.size
    }

    /// Where in the ring the producer stands.
    pub fn get_producer_position(&self) -> (r: usize)
        requires
            self.wf(),
            self@.size > 0,
        ensures
            r == (self@.consumed + self@.waiting) % self@.size,
            r < self@.size,
    {
        proof {
            let size = self.size as int;
            lemma_wrapped_sum(self.produced - self.consumed, self.consumed as int, size);
            lemma_wrapped(self.produced as int, 0, size);
            lemma_mod_mod(self@.waiting + self@.consumed, size, 2);
            assert(size * 2 == 2 * size);
        }
        self.produced % self.size
    }

    /// The size of the ring.
    pub fn get_size(&self) -> (r: usize)
        ensures
            r == self@.size,
    {
        self.size
    }

    /// What the ring is called.
    pub fn get_name(&self) -> (r: &'static str)
        ensures
            r@ == self@.name,
    {
        self.name
    }

    /// Takes `amount` out of the account, and gives it back.
    pub fn consumed(&mut self, amount: usize) -> (r: usize)
        requires
            old(self).wf(),
            amount <= 2 * old(self)@.size,
        ensures
            final(self).wf(),
            final(self)@ == old(self)@.with_consumed(amount as int),
            r == amount,
    {
        let limit: usize = 2 * self.size;
        let consumed: usize = if self.consumed >= limit - amount {
            self.consumed - (limit - amount)
        } else {
            self.consumed + amount
        };
        proof {
            let size = self.size as int;
            lemma_wrapped(self.consumed + amount, -1, size);
            lemma_wrapped(consumed as int, 0, size);
            lemma_wrapped_sum(self.produced - self.consumed, -(amount as int), size);
            lemma_wrapped(self.produced - self.consumed - amount, 1, size);
        }
        self.consumed = consumed;
        amount
    }

    /// What the consumer gets, or `None` if it has to wait for more.
    fn consume_any_inner(&mut self, min_amount: usize, expired: bool) -> (r: Option<usize>)
        requires
            old(self).wf(),
        ensures
            final(self).wf(),
            amount_of(r) == old(self)@.share(min_amount as int, expired),
            final(self)@ == old(self)@.asked(amount_of(r)),
    {
        let amount: usize = self.get_waiting();
        if amount >= min_amount || self.at_end || expired {
            self.consumer_waiting = false;
            Some(amount)
        } else {
            self.consumer_waiting = true;
            None
        }
    }

    /// Asks for anything.
    pub fn consume_any(&mut self) -> (r: Option<usize>)
        requires
            old(self).wf(),
        ensures
            final(self).wf(),
            amount_of(r) == old(self)@.share(1, false),
            final(self)@ == old(self)@.asked(amount_of(r)),
    {
        self.consume_any_inner(1, false)
    }

    /// Asks for anything; `expired` says that the time to wait is over.
    pub fn consume_any_with_timeout(&mut self, expired: bool) -> (r: Option<usize>)
        requires
            old(self).wf(),
        ensures
            final(self).wf(),
            amount_of(r) == old(self)@.share(1, expired),
            final(self)@ == old(self)@.asked(amount_of(r)),
    {
        self.consume_any_inner(1, expired)
    }

    /// Asks for at least `amount`.
    pub fn consume(&mut self, amount: usize) -> (r: Option<usize>)
        requires
            old(self).wf(),
        ensures
            final(self).wf(),
            amount_of(r) == old(self)@.share(amount as int, false),
            final(self)@ == old(self)@.asked(amount_of(r)),
    {
        self.consume_any_inner(amount, false)
    }

    /// Asks for at least `amount`, and gets no more than lies in one piece.
    pub fn consume_contiguous_min_amount(&mut self, amount: usize) -> (r: Option<usize>)
        requires
            old(self).wf(),
            old(self)@.size > 0,
        ensures
            final(self).wf(),
            amount_of(r) == match old(self)@.share(amount as int, false) {
                Some(n) => Some(
                    if n > old(self)@.contiguous() {
                        old(self)@.contiguous()
                    } else {
                        n
                    },
                ),
                None => None,
            },
            final(self)@ == old(self)@.asked(amount_of(r)),
    {
        let n: usize = match self.consume_any_inner(amount, false) {
            Some(n) => n,
            None => {
                return None;
            },
        };
        let l: usize = self.size - (self.consumed % self.size);
        if n > l {
            Some(l)
        } else {
            Some(n)
        }
    }
}

} // verus!
