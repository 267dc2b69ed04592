//! The map-output tracker: where the output of each map partition of each
//! shuffle can be fetched.

use crate::error::SchedulerError;
use std::collections::HashMap;
use vstd::prelude::*;

verus! {

/// For each registered shuffle, one slot per map partition; a slot holds the
/// location of that partition's output once it is known.
#[derive(Debug)]
pub struct MapOutputTracker {
    pub server_uris: HashMap<usize, Vec<Option<String>>>,
}

impl MapOutputTracker {
    /// Whether shuffle `shuffle_id` is registered.
    pub open spec fn registered(&self, shuffle_id: usize) -> bool {
        self.server_uris@.contains_key(shuffle_id)
    }

    /// The slots of shuffle `shuffle_id`, as plain character sequences.
    pub open spec fn slots(&self, shuffle_id: usize) -> Seq<Option<Seq<char>>> {
        self.server_uris@[shuffle_id].deep_view()
    }

    /// All shuffles but `shuffle_id` are as they were in `before`.
    pub open spec fn same_but(&self, before: &Self, shuffle_id: usize) -> bool {
        forall|k: usize|
            k != shuffle_id ==> (#[trigger] self.registered(k)) == before.registered(k) && (
            before.registered(k) ==> self.server_uris@[k] == before.server_uris@[k])
    }

    /// A tracker without any shuffle.
    pub fn new() -> (t: Self)
        ensures
            forall|k: usize| !t.registered(k),
    {
        MapOutputTracker { server_uris: HashMap::new() }
    }

    /// Registers shuffle `shuffle_id` with `num_maps` empty slots.  A shuffle that
    /// is registered already keeps its slots; the call fails, and changes
    /// nothing, when it was registered with another number of slots.
    pub fn register_shuffle(&mut self, shuffle_id: usize, num_maps: usize) -> (r: Result<
        (),
        SchedulerError,
    >)
        ensures
            final(self).same_but(old(self), shuffle_id),
            r is Err <==> old(self).registered(shuffle_id) && old(self).slots(shuffle_id).len()
                != num_maps,
            r matches Err(e) ==> e == (SchedulerError::ShuffleArityMismatch {
                shuffle_id,
                registered: old(self).slots(shuffle_id).len() as usize,
                requested: num_maps,
            }),
            old(self).registered(shuffle_id) ==> final(self).server_uris@ == old(self).server_uris@,
            !old(self).registered(shuffle_id) ==> {
                &&& final(self).registered(shuffle_id)
                &&& final(self).slots(shuffle_id).len() == num_maps
                &&& forall|i: int|
                    0 <= i < num_maps ==> (#[trigger] final(self).slots(shuffle_id)[i]) is None
            },
    {
        match self.server_uris.get(&shuffle_id) {
            Some(slots) => {
                let registered = slots.len();
                if registered != num_maps {
                    Err(
                        SchedulerError::ShuffleArityMismatch {
                            shuffle_id,
                            registered,
                            requested: num_maps,
                        },
                    )
                } else {
                    Ok(())
                }
            },
            None => {
                let mut slots: Vec<Option<String>> = Vec::new();
                let mut i: usize = 0;
                while i < num_maps
                    invariant
                        i <= num_maps,
                        slots@.len() == i,
                        forall|j: int| 0 <= j < i ==> (#[trigger] slots@[j]) is None,
                    decreases num_maps - i,
                {
                    slots.push(None);
                    i = i + 1;
                }
                self.server_uris.insert(shuffle_id, slots);
                proof {
                    assert forall|j: int| 0 <= j < num_maps implies (#[trigger] self.slots(
                        shuffle_id,
                    )[j]) is None by {
                        assert(self.slots(shuffle_id)[j] == slots@[j].deep_view());
                    }
                }
                Ok(())
            },
        }
    }

    /// Sets all slots of shuffle `shuffle_id` at once.
    pub fn register_map_outputs(&mut self, shuffle_id: usize, locs: Vec<Option<String>>)
        ensures
            final(self).server_uris@ == old(self).server_uris@.insert(shuffle_id, locs),
    {
        self.server_uris.insert(shuffle_id, locs);
    }

    /// Whether slot `map_id` of shuffle `shuffle_id` exists and holds `server_uri`.
    pub open spec fn holds(&self, shuffle_id: usize, map_id: usize, server_uri: Seq<char>) -> bool {
        &&& self.registered(shuffle_id)
        &&& map_id < self.slots(shuffle_id).len()
        &&& self.slots(shuffle_id)[map_id as int] == Some(server_uri)
    }

    /// Clears slot `map_id` of shuffle `shuffle_id` if it holds `server_uri`;
    /// otherwise changes nothing.
    pub fn unregister_map_output(&mut self, shuffle_id: usize, map_id: usize, server_uri: &String)
        ensures
            final(self).same_but(old(self), shuffle_id),
            final(self).registered(shuffle_id) == old(self).registered(shuffle_id),
            old(self).holds(shuffle_id, map_id, server_uri@) ==> final(self).slots(shuffle_id)
                == old(self).slots(shuffle_id).update(map_id as int, None),
            !old(self).holds(shuffle_id, map_id, server_uri@) ==> final(self).server_uris@ == old(
                self,
            ).server_uris@,
    {
        let matches = match self.server_uris.get(&shuffle_id) {
            Some(slots) => {
                if map_id < slots.len() {
                    assert(self.slots(shuffle_id)[map_id as int] == slots@[map_id as int].deep_view());
                    match &slots[map_id] {
                        Some(s) => *s == *server_uri,
                        None => false,
                    }
                } else {
                    false
                }
            },
            None => false,
        };
        if matches {
            match self.server_uris.remove(&shuffle_id) {
                Some(mut slots) => {
                    let ghost before = slots.deep_view();
                    slots[map_id] = None;
                    assert(slots.deep_view() =~= before.update(map_id as int, None));
                    self.server_uris.insert(shuffle_id, slots);
                },
                None => {},
            }
        }
    }

    /// The location recorded for map partition `map_id` of shuffle `shuffle_id`,
    /// if there is one.
    pub fn get_map_output(&self, shuffle_id: usize, map_id: usize) -> (r: Option<String>)
        ensures
            r is Some <==> self.registered(shuffle_id) && map_id < self.slots(shuffle_id).len()
                && self.slots(shuffle_id)[map_id as int] is Some,
            r matches Some(s) ==> Some(s@) == self.slots(shuffle_id)[map_id as int],
    {
        match self.server_uris.get(&shuffle_id) {
            Some(slots) => {
                if map_id < slots.len() {
                    assert(self.slots(shuffle_id)[map_id as int] == slots@[map_id as int].deep_view());
                    match &slots[map_id] {
                        Some(s) => Some(s.clone()),
                        None => None,
                    }
                } else {
                    None
                }
            },
            None => None,
        }
    }
}

} // verus!
