//! Choosing the executor that a task is sent to.

use crate::task::TaskOption;
use vstd::prelude::*;

verus! {

/// The address of an executor: an IPv4 address, as a number, and a port.
#[derive(Clone, Copy, Debug, PartialEq, Eq, Structural)]
pub struct Executor {
    pub ip: u32,
    pub port: u16,
}

/// The executors that tasks can be sent to.  The one that was chosen last stands
/// first; the one that has waited longest stands last.
#[derive(Debug)]
pub struct ExecutorDirectory {
    pub servers: Vec<Executor>,
}

/// The position of the first executor of `servers` that runs at `ip`, or the
/// length of `servers` if none does.
pub open spec fn position_of(servers: Seq<Executor>, ip: u32) -> int
    decreases servers.len(),
{
    if servers.len() == 0 {
        0
    } else if servers[0].ip == ip {
        0
    } else {
        1 + position_of(servers.drop_first(), ip)
    }
}

/// The position of the executor to choose for a task that prefers the
/// locations `locs`: the first executor at the first of these locations at
/// which an executor runs; without such a location, the executor that stands
/// last.
pub open spec fn choice(servers: Seq<Executor>, locs: Seq<u32>) -> int
    decreases locs.len(),
{
    if locs.len() == 0 {
        servers.len() - 1
    } else if position_of(servers, locs[0]) < servers.len() {
        position_of(servers, locs[0])
    } else {
        choice(servers, locs.drop_first())
    }
}

/// The position that is found is a position of the list, or its length.
pub proof fn lemma_position_of(servers: Seq<Executor>, ip: u32)
    ensures
        0 <= position_of(servers, ip) <= servers.len(),
        position_of(servers, ip) < servers.len() ==> servers[position_of(servers, ip)].ip == ip,
        forall|i: int| 0 <= i < position_of(servers, ip) ==> (#[trigger] servers[i]).ip != ip,
    decreases servers.len(),
{
    if servers.len() > 0 && servers[0].ip != ip {
        let rest = servers.drop_first();
        lemma_position_of(rest, ip);
        assert forall|i: int| 0 <= i < position_of(servers, ip) implies (#[trigger] servers[i]).ip
            != ip by {
            if i > 0 {
                assert(rest[i - 1] == servers[i]);
            }
        }
    }
}

/// Where there is an executor, the choice is one of them; and if the task
/// prefers a location at which an executor runs, the choice runs at a location
/// that the task prefers.
pub proof fn lemma_choice(servers: Seq<Executor>, locs: Seq<u32>)
    requires
        servers.len() > 0,
    ensures
        0 <= choice(servers, locs) < servers.len(),
        (exists|l: int, i: int|
            0 <= l < locs.len() && 0 <= i < servers.len() && servers[i].ip == locs[l])
            ==> locs.contains(servers[choice(servers, locs)].ip),
    decreases locs.len(),
{
    if locs.len() > 0 {
        lemma_position_of(servers, locs[0]);
        if position_of(servers, locs[0]) < servers.len() {
            assert(locs[0] == servers[choice(servers, locs)].ip);
        } else {
            let rest = locs.drop_first();
            lemma_choice(servers, rest);
            if exists|l: int, i: int|
                0 <= l < locs.len() && 0 <= i < servers.len() && servers[i].ip == locs[l] {
                let (l, i) = choose|l: int, i: int|
                    0 <= l < locs.len() && 0 <= i < servers.len() && servers[i].ip == locs[l];
                assert(l > 0);
                assert(rest[l - 1] == locs[l]);
                let ip = servers[choice(servers, rest)].ip;
                assert(rest.contains(ip));
                let j = choose|j: int| 0 <= j < rest.len() && rest[j] == ip;
                assert(locs[j + 1] == ip);
            }
        }
    }
}

impl ExecutorDirectory {
    /// A directory of the executors `servers`.
    pub fn new(servers: Vec<Executor>) -> (d: Self)
        ensures
            d.servers == servers,
    {
        ExecutorDirectory { servers }
    }

    /// The position of the first executor that runs at `ip`, or the number of
    /// executors if none does.
    pub fn find(&self, ip: u32) -> (pos: usize)
        ensures
            pos == position_of(self.servers@, ip),
            pos <= self.servers@.len(),
    {
        let mut pos: usize = 0;
        proof {
            lemma_position_of(self.servers@, ip);
            assert(self.servers@.subrange(0, self.servers@.len() as int) =~= self.servers@);
        }
        while pos < self.servers.len() && self.servers[pos].ip != ip
            invariant
                pos <= self.servers@.len(),
                position_of(self.servers@, ip) == pos + position_of(
                    self.servers@.subrange(pos as int, self.servers@.len() as int),
                    ip,
                ),
            decreases self.servers@.len() - pos,
        {
            proof {
                let rest = self.servers@.subrange(pos as int, self.servers@.len() as int);
                assert(rest[0] == self.servers@[pos as int]);
                assert(rest.drop_first() =~= self.servers@.subrange(
                    pos + 1,
                    self.servers@.len() as int,
                ));
            }
            pos = pos + 1;
        }
        proof {
            let rest = self.servers@.subrange(pos as int, self.servers@.len() as int);
            if pos < self.servers@.len() {
                assert(rest[0] == self.servers@[pos as int]);
            }
        }
        pos
    }

    /// The executor to send `task` to.
    ///
    /// If the task prefers locations and an executor runs at one of them, the
    /// first executor at the first such location is chosen.  Otherwise the
    /// executors take turns: the one that stands last is chosen.  The chosen
    /// executor moves to the front.  Without executors there is no choice.
    pub fn next_executor_server(&mut self, task: &TaskOption) -> (r: Option<Executor>)
        ensures
            old(self).servers@.len() == 0 ==> r is None && final(self).servers@ == old(self).servers@,
            old(self).servers@.len() > 0 ==> {
                let at = choice(old(self).servers@, task@.locs);
                &&& 0 <= at < old(self).servers@.len()
                &&& r == Some(old(self).servers@[at])
                &&& final(self).servers@ == seq![old(self).servers@[at]] + old(self).servers@.remove(
                    at,
                )
            },
    {
        if self.servers.len() == 0 {
            return None;
        }
        let locs = task.preferred_locations();
        proof {
            lemma_choice(self.servers@, locs@);
        }
        let mut at: usize = self.servers.len() - 1;
        let mut l: usize = 0;
        let mut found = false;
        proof {
            assert(locs@.subrange(0, locs@.len() as int) =~= locs@);
        }
        while l < locs.len() && !found
            invariant
                self.servers@.len() > 0,
                l <= locs@.len(),
                locs@ == task@.locs,
                !found ==> at == self.servers@.len() - 1,
                !found ==> choice(self.servers@, locs@) == choice(
                    self.servers@,
                    locs@.subrange(l as int, locs@.len() as int),
                ),
                found ==> at == choice(self.servers@, locs@),
            decreases locs@.len() - l + (if found { 0int } else { 1int }),
        {
            let ghost rest = locs@.subrange(l as int, locs@.len() as int);
            proof {
                assert(rest[0] == locs@[l as int]);
                assert(rest.drop_first() =~= locs@.subrange(l + 1, locs@.len() as int));
            }
            let pos = self.find(locs[l]);
            if pos < self.servers.len() {
                at = pos;
                found = true;
            }
            l = l + 1;
        }
        proof {
            if !found {
                assert(locs@.subrange(l as int, locs@.len() as int) =~= Seq::<u32>::empty());
            }
        }
        let chosen = self.servers.remove(at);
        self.servers.insert(0, chosen);
        proof {
            assert(self.servers@ =~= seq![chosen] + old(self).servers@.remove(at as int));
        }
        Some(chosen)
    }
}

} // verus!
