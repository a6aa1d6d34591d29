//! Preparation of a whole EXEC over the touched keys, at one moment.

use super::model::Moment;
use super::mutation::{collect_changes, collect_keys, MutationOrigin, Prepared};
use super::store::Store;
use crate::command::reply::{Reply, ReplyModel};
use crate::command::types::Command;
use crate::command::reply;
use crate::storage::changes;
use crate::storage::model;
use vstd::prelude::*;

verus! {

impl Store {
    /// Resolves the batch without changing the store. An error of one command
    /// does not stop the others. All final states form one record, removals
    /// of keys that the batch created and removed included.
    pub fn prepare_batch(&self, commands: Vec<Command>, moment: Moment) -> (result: Prepared)
        requires
            self.wf(),
        ensures
            result.suits(self),
            result.reply.model() == ReplyModel::Array(
                model::ran_all(model::begin(self.data()), commands@, moment).1,
            ),
            result.changes() == changes::changes_of(model::ran_all(model::begin(self.data()), commands@, moment).0),
            result.batch.origin == MutationOrigin::Client,
    {
        let keys = collect_keys(&commands);
        let (mut shadow, tokens) = self.observed_shadow(&keys);
        let ghost before = shadow;
        let ghost data = self.data();
        let ghost part = model::begin(shadow.data());
        let ghost full = model::begin(data);
        let ghost all = commands@;
        proof {
            shadow.lemma_start();
            changes::lemma_link_begin(data, keys@.dom());
            changes::lemma_link_ran_all(data, full, part, keys@.dom(), all, moment);
        }
        let replies = shadow.run_all(commands, moment, Ghost(&before), Ghost(part));
        let ghost trace = model::ran_all(part, all, moment).0;
        let entries = collect_changes(&shadow, &tokens, &keys, Ghost(&before), Ghost(trace));
        proof {
            self.lemma_applicable(&shadow, &before, model::ran_all(full, all, moment).0, trace, keys@.dom());
            reply::lemma_reply_models(replies@, replies@.len());
            assert(reply::reply_models(replies@, replies@.len()) =~= model::ran_all(part, all, moment).1);
        }
        self.prepared(Reply::Array(replies), entries, MutationOrigin::Client)
    }

    /// Executes commands one after the other. UNWATCH only answers: the
    /// observations were looked at before.
    fn run_all(
        &mut self,
        commands: Vec<Command>,
        moment: Moment,
        Ghost(before): Ghost<&Store>,
        Ghost(trace): Ghost<super::model::Trace>,
    ) -> (replies: Vec<Reply>)
        requires
            old(self).reached(before, trace),
        ensures
            final(self).reached(before, model::ran_all(trace, commands@, moment).0),
            replies@.len() == model::ran_all(trace, commands@, moment).1.len(),
            forall|i: int|
                0 <= i < replies@.len() ==> (#[trigger] replies@[i]).model() == model::ran_all(
                    trace,
                    commands@,
                    moment,
                ).1[i],
    {
        let ghost all = commands@;
        let count: usize = commands.len();
        let mut left = reversed(commands);
        let mut replies: Vec<Reply> = Vec::new();
        let ghost mut done: int = 0;
        assert(all.take(0) =~= Seq::<Command>::empty());
        while left.len() > 0
            invariant
                left@.len() + done == all.len(),
                0 <= done,
                forall|i: int| 0 <= i < left@.len() ==> #[trigger] left@[i] == all[all.len() - 1 - i],
                self.reached(before, model::ran_all(trace, all.take(done), moment).0),
                replies@.len() == done,
                model::ran_all(trace, all.take(done), moment).1.len() == done,
                forall|i: int|
                    0 <= i < replies@.len() ==> (#[trigger] replies@[i]).model() == model::ran_all(
                        trace,
                        all.take(done),
                        moment,
                    ).1[i],
            decreases left@.len(),
        {
            let command = match left.pop() {
                Some(command) => command,
                None => return replies,
            };
            let ghost so_far = model::ran_all(trace, all.take(done), moment).0;
            proof {
                assert(command == all[done]);
                assert(all.take(done + 1).drop_last() =~= all.take(done));
            }
            let reply = match command {
                Command::Unwatch => Reply::Okay,
                other => self.execute_inner(other, moment, Ghost(before), Ghost(so_far)),
            };
            replies.push(reply);
            proof {
                done = done + 1;
            }
        }
        assert(all.take(done) =~= all);
        replies
    }
}

/// The commands from last to first.
fn reversed(commands: Vec<Command>) -> (result: Vec<Command>)
    ensures
        result@ == commands@.reverse(),
{
    let ghost all = commands@;
    let mut left = commands;
    let mut result: Vec<Command> = Vec::new();
    while left.len() > 0
        invariant
            left@.len() + result@.len() == all.len(),
            left@ == all.take(left@.len() as int),
            forall|i: int| 0 <= i < result@.len() ==> #[trigger] result@[i] == all[all.len() - 1 - i],
        decreases left@.len(),
    {
        if let Some(command) = left.pop() {
            result.push(command);
        }
    }
    assert(result@ =~= all.reverse());
    result
}

} // verus!
