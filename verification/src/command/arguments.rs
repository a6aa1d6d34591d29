//! Arguments of a request, taken one by one from the front.

use bytes::Bytes;
use vstd::prelude::*;

verus! {

/// Arguments that have not been taken yet.
pub struct Arguments {
    /// The arguments, the next one last.
    rest: Vec<Bytes>,
}

impl View for Arguments {
    type V = Seq<Bytes>;

    closed spec fn view(&self) -> Seq<Bytes> {
        self.rest@.reverse()
    }
}

impl Arguments {
    /// Arguments given in reverse order.
    pub fn from_reversed(rest: Vec<Bytes>) -> (result: Self)
        ensures
            result@ == rest@.reverse(),
    {
        Arguments { rest }
    }

    pub fn len(&self) -> (result: usize)
        ensures
            result == self@.len(),
    {
        self.rest.len()
    }

    /// Takes the next argument.
    pub fn take(&mut self) -> (result: Bytes)
        requires
            old(self)@.len() > 0,
        ensures
            result == old(self)@[0],
            final(self)@ == old(self)@.skip(1),
    {
        let result = self.rest.pop().unwrap();
        assert(self@ =~= old(self)@.skip(1));
        result
    }

    /// Takes all arguments that are left.
    pub fn collect(self) -> (result: Vec<Bytes>)
        ensures
            result@ == self@,
    {
        let ghost all = self@;
        let mut left = self;
        let mut result: Vec<Bytes> = Vec::new();
        assert(result@ + left@ =~= all);
        while left.rest.len() > 0
            invariant
                result@ + left@ == all,
            decreases left@.len(),
        {
            let ghost before = left@;
            let item = left.take();
            result.push(item);
            assert(result@ + left@ =~= all);
        }
        assert(result@ =~= all);
        result
    }

    /// Takes all arguments that are left, two by two.
    pub fn pairs(self) -> (result: Vec<(Bytes, Bytes)>)
        requires
            self@.len() % 2 == 0,
        ensures
            result@.len() == self@.len() / 2,
            forall|i: int|
                0 <= i < result@.len() ==> #[trigger] result@[i] == (self@[2 * i], self@[2 * i
                    + 1]),
    {
        let ghost all = self@;
        let mut left = self;
        let mut result: Vec<(Bytes, Bytes)> = Vec::new();
        assert(all.skip(0) =~= all);
        while left.rest.len() > 0
            invariant
                all.len() % 2 == 0,
                2 * result@.len() <= all.len(),
                left@ == all.skip((2 * result@.len()) as int),
                forall|i: int|
                    0 <= i < result@.len() ==> #[trigger] result@[i] == (all[2 * i], all[2 * i
                        + 1]),
            decreases left@.len(),
        {
            let ghost done = result@.len() as int;
            assert(left@.len() == all.len() - 2 * done);
            let first = left.take();
            let second = left.take();
            assert(left@ =~= all.skip(2 * (done + 1)));
            result.push((first, second));
        }
        result
    }
}

} // verus!
