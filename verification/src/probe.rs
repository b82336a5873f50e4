//! Questions that are put to one shard after another until one answers.
use vstd::prelude::*;
use crate::domain::{DomainError, DomainResult, ErrorView, ShardId};

verus! {

/// The shards to ask, and how many were asked.
#[derive(Debug)]
pub struct Probe {
    pub order: Vec<ShardId>,
    pub asked: usize,
}

/// What to do next.
#[derive(Debug)]
pub enum Next<T> {
    /// ask this shard
    Ask(ShardId),
    /// the answer
    Done(DomainResult<T>),
}

/// The answer to a question for a size: that of the first shard that gives one. A piece
/// stands for its object, whose size it carries.
pub open spec fn size_found(answers: Seq<Result<(u64, Option<u64>), ErrorView>>) -> Result<
    u64,
    ErrorView,
>
    decreases answers.len(),
{
    if answers.len() == 0 {
        Err(ErrorView::NotFound)
    } else {
        match answers[0] {
            Ok(s) => Ok(
                match s.1 {
                    Some(obj) => obj,
                    None => s.0,
                },
            ),
            Err(_) => size_found(answers.skip(1)),
        }
    }
}

/// The answer to a question for a key: whether some shard has it, or the first error before
/// one has.
pub open spec fn key_found(answers: Seq<Result<bool, ErrorView>>) -> Result<bool, ErrorView>
    decreases answers.len(),
{
    if answers.len() == 0 {
        Ok(false)
    } else {
        match answers[0] {
            Ok(held) => if held {
                Ok(true)
            } else {
                key_found(answers.skip(1))
            },
            Err(e) => Err(e),
        }
    }
}

impl Probe {
    pub open spec fn wf(&self) -> bool {
        self.asked <= self.order.len()
    }

    /// Whether `r` asks the next shard, or ends with `at_end` where there is none.
    pub open spec fn goes_on<T>(&self, after: &Self, r: Next<T>, at_end: Result<T, ErrorView>) -> bool {
        &&& after.order == self.order
        &&& if self.asked < self.order.len() {
            r == Next::<T>::Ask(self.order@[self.asked as int]) && after.asked == self.asked + 1
        } else {
            after.asked == self.asked && match at_end {
                Ok(v) => r matches Next::Done(Ok(x)) && x == v,
                Err(e) => r matches Next::Done(Err(x)) && x@ == e,
            }
        }
    }

    /// Begins to ask; the first shard is asked by the first call of `next_size`
    /// or `next_key` without an answer.
    pub fn new(order: Vec<ShardId>) -> (r: Self)
        ensures
            r.wf(),
            r.order == order,
            r.asked == 0,
    {
        Probe { order, asked: 0 }
    }

    /// The next step of a question for a size.
    pub fn next_size(&mut self, answer: Option<DomainResult<(u64, Option<u64>)>>) -> (r: Next<u64>)
        requires
            old(self).wf(),
        ensures
            final(self).wf(),
            match answer {
                Some(Ok(s)) => *final(self) == *old(self) && (r matches Next::Done(Ok(n)) && n == (
                match s.1 {
                    Some(obj) => obj,
                    None => s.0,
                })),
                _ => old(self).goes_on(final(self), r, Err(ErrorView::NotFound)),
            },
    {
        if let Some(Ok(s)) = answer {
            return Next::Done(
                Ok(
                    match s.1 {
                        Some(obj) => obj,
                        None => s.0,
                    },
                ),
            );
        }
        if self.asked < self.order.len() {
            let s = self.order[self.asked];
            self.asked = self.asked + 1;
            Next::Ask(s)
        } else {
            Next::Done(Err(DomainError::NotFound))
        }
    }

    /// The next step of a question for a key.
    pub fn next_key(&mut self, answer: Option<DomainResult<bool>>) -> (r: Next<bool>)
        requires
            old(self).wf(),
        ensures
            final(self).wf(),
            match answer {
                Some(Ok(held)) => if held {
                    *final(self) == *old(self) && (r matches Next::Done(Ok(b)) && b)
                } else {
                    old(self).goes_on(final(self), r, Ok(false))
                },
                Some(Err(e)) => *final(self) == *old(self) && (r matches Next::Done(Err(x)) && x@
                    == e@),
                None => old(self).goes_on(final(self), r, Ok(false)),
            },
    {
        match answer {
            Some(Ok(true)) => {
                return Next::Done(Ok(true));
            },
            Some(Err(e)) => {
                return Next::Done(Err(e));
            },
            _ => {},
        }
        if self.asked < self.order.len() {
            let s = self.order[self.asked];
            self.asked = self.asked + 1;
            Next::Ask(s)
        } else {
            Next::Done(Ok(false))
        }
    }
}

/// A size that some shard gives is found, and a key that some shard has is found unless a
/// shard asked before fails.
pub proof fn some_answer_is_found(
    sizes: Seq<Result<(u64, Option<u64>), ErrorView>>,
    keys: Seq<Result<bool, ErrorView>>,
    i: int,
)
    ensures
        0 <= i < sizes.len() && sizes[i] is Ok ==> size_found(sizes) is Ok,
        0 <= i < keys.len() && keys[i] == Ok::<bool, ErrorView>(true) ==> key_found(keys) != Ok::<
            bool,
            ErrorView,
        >(false),
    decreases sizes.len() + keys.len(),
{
    if i > 0 && (sizes.len() > 0 || keys.len() > 0) {
        let s = if sizes.len() > 0 {
            sizes.skip(1)
        } else {
            sizes
        };
        let k = if keys.len() > 0 {
            keys.skip(1)
        } else {
            keys
        };
        some_answer_is_found(s, k, i - 1);
    }
}

/// The machine and the answers agree: the answer to a size question, asked shard by shard,
/// is that of the whole list of answers.
pub proof fn sizes_step_by_step(answers: Seq<Result<(u64, Option<u64>), ErrorView>>, n: int)
    requires
        0 <= n <= answers.len(),
        forall|i: int| 0 <= i < n ==> (#[trigger] answers[i]) is Err,
    ensures
        size_found(answers) == size_found(answers.skip(n)),
    decreases n,
{
    if n == 0 {
        assert(answers.skip(0) =~= answers);
    } else {
        let t = answers.skip(1);
        assert forall|i: int| 0 <= i < n - 1 implies (#[trigger] t[i]) is Err by {
            assert(t[i] == answers[i + 1]);
        }
        sizes_step_by_step(t, n - 1);
        assert(t.skip(n - 1) =~= answers.skip(n));
        assert(answers[0] is Err);
    }
}

/// The size is the one that the first shard with an answer gives: that of the object where
/// the shard holds a piece. Without an answer the key is not found.
pub proof fn first_sizes_count(answers: Seq<Result<(u64, Option<u64>), ErrorView>>, i: int)
    requires
        0 <= i <= answers.len(),
        forall|j: int| 0 <= j < i ==> (#[trigger] answers[j]) is Err,
    ensures
        i == answers.len() ==> size_found(answers) == Err::<u64, ErrorView>(ErrorView::NotFound),
        i < answers.len() ==> match answers[i] {
            Ok((_, Some(object))) => size_found(answers) == Ok::<u64, ErrorView>(object),
            Ok((size, None)) => size_found(answers) == Ok::<u64, ErrorView>(size),
            Err(_) => true,
        },
{
    sizes_step_by_step(answers, i);
    if i < answers.len() {
        assert(answers.skip(i)[0] == answers[i]);
    }
}

/// A key is there when a shard has it and none asked before fails; it is not when all shards
/// say so; otherwise the first failure is told.
pub proof fn keys_are_found_anywhere(answers: Seq<Result<bool, ErrorView>>, i: int)
    requires
        0 <= i <= answers.len(),
        forall|j: int| 0 <= j < i ==> #[trigger] answers[j] == Ok::<bool, ErrorView>(false),
    ensures
        i == answers.len() ==> key_found(answers) == Ok::<bool, ErrorView>(false),
        i < answers.len() ==> match answers[i] {
            Ok(true) => key_found(answers) == Ok::<bool, ErrorView>(true),
            Err(e) => key_found(answers) == Err::<bool, ErrorView>(e),
            _ => true,
        },
    decreases i,
{
    if i > 0 {
        let t = answers.skip(1);
        assert forall|j: int| 0 <= j < i - 1 implies #[trigger] t[j] == Ok::<bool, ErrorView>(
            false,
        ) by {
            assert(t[j] == answers[j + 1]);
        }
        keys_are_found_anywhere(t, i - 1);
        assert(answers[0] == Ok::<bool, ErrorView>(false));
    }
}

} // verus!
