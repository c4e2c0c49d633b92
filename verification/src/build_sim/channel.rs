//! Connecting the nodes of a graph by channels.

use std::collections::HashMap;
use vstd::prelude::*;

verus! {

broadcast use vstd::std_specs::hash::group_hash_axioms;

/// One end of a channel.
#[derive(Debug)]
pub enum ChanType<S, R> {
    Receiver(R),
    Sender(S),
}

/// The unconnected ends of the channels that come out of a node: one, or one
/// for each stream of a node with several.
#[derive(Debug)]
pub enum ChannelMapEntry<S, R> {
    Single(ChanType<S, R>),
    Broadcast(HashMap<u32, ChanType<S, R>>),
}

pub const DEFAULT_CHAN_SIZE: usize = 1024;

/// The channels coming out of each node. When a channel gets created, one end
/// is handed out, and the map keeps the other end until it is asked for.
#[derive(Debug)]
pub struct ChannelMap<S, R> {
    pub map: Option<HashMap<u32, ChannelMapEntry<S, R>>>,
}

/// The capacity of a new channel.
pub open spec fn capacity_of(capacity: Option<usize>) -> usize {
    match capacity {
        Some(cap) => cap,
        None => DEFAULT_CHAN_SIZE,
    }
}

fn capacity_or_default(capacity: Option<usize>) -> (res: usize)
    ensures
        res == capacity_of(capacity),
{
    match capacity {
        Some(cap) => cap,
        None => DEFAULT_CHAN_SIZE,
    }
}

impl<S, R> ChannelMap<S, R> {
    /// The entries by node; none before the map is instantiated.
    pub open spec fn entries(&self) -> Map<u32, ChannelMapEntry<S, R>> {
        match self.map {
            Some(map) => map@,
            None => Map::empty(),
        }
    }

    /// The end that is kept for a node, or for one of its streams.
    pub open spec fn held(&self, id: u32, idx: Option<u32>) -> Option<ChanType<S, R>> {
        if self.entries().contains_key(id) {
            match (self.entries()[id], idx) {
                (ChannelMapEntry::Single(chan), None) => Some(chan),
                (ChannelMapEntry::Broadcast(chans), Some(i)) => if chans@.contains_key(i) {
                    Some(chans@[i])
                } else {
                    None
                },
                _ => None,
            }
        } else {
            None
        }
    }

    /// A node is not asked for a single channel and for streams as well.
    pub open spec fn fits(&self, id: u32, idx: Option<u32>) -> bool {
        self.entries().contains_key(id) ==> (self.entries()[id] is Broadcast <==> idx is Some)
    }

    /// What is kept for all other nodes and streams has not changed, nor how
    /// other nodes may be asked.
    pub open spec fn same_except(&self, before: ChannelMap<S, R>, id: u32, idx: Option<u32>) -> bool {
        &&& forall|other: u32, stream: Option<u32>|
            (other != id || stream != idx) ==> #[trigger] self.held(other, stream) == before.held(
                other,
                stream,
            )
        &&& forall|other: u32, stream: Option<u32>|
            other != id ==> #[trigger] self.fits(other, stream) == before.fits(other, stream)
    }

    /// Handing out a receiver: the one that is kept, or one end of a new
    /// channel `made`, whose other end is kept.
    pub open spec fn hands_receiver(
        before: ChannelMap<S, R>,
        id: u32,
        idx: Option<u32>,
        after: ChannelMap<S, R>,
        made: Option<(S, R)>,
        rcv: R,
    ) -> bool {
        &&& after.same_except(before, id, idx)
        &&& after.fits(id, idx)
        &&& idx is Some ==> after.entries().contains_key(id)
        &&& match before.held(id, idx) {
            Some(ChanType::Receiver(kept)) => {
                &&& made is None
                &&& rcv == kept
                &&& after.held(id, idx) is None
            },
            _ => {
                &&& made matches Some((snd, new)) && rcv == new && after.held(id, idx) == Some(
                    ChanType::<S, R>::Sender(snd),
                )
            },
        }
    }

    /// Handing out a sender: the one that is kept, or one end of a new channel
    /// `made`, whose other end is kept.
    pub open spec fn hands_sender(
        before: ChannelMap<S, R>,
        id: u32,
        idx: Option<u32>,
        after: ChannelMap<S, R>,
        made: Option<(S, R)>,
        snd: S,
    ) -> bool {
        &&& after.same_except(before, id, idx)
        &&& after.fits(id, idx)
        &&& idx is Some ==> after.entries().contains_key(id)
        &&& match before.held(id, idx) {
            Some(ChanType::Sender(kept)) => {
                &&& made is None
                &&& snd == kept
                &&& after.held(id, idx) is None
            },
            _ => {
                &&& made matches Some((new, rcv)) && snd == new && after.held(id, idx) == Some(
                    ChanType::<S, R>::Receiver(rcv),
                )
            },
        }
    }

    pub fn new(map: Option<HashMap<u32, ChannelMapEntry<S, R>>>) -> (res: Self)
        ensures
            res.map == map,
    {
        ChannelMap { map }
    }

    /// Starts with no channels.
    pub fn instantiate(&mut self)
        ensures
            final(self).map is Some,
            final(self).entries() == Map::<u32, ChannelMapEntry<S, R>>::empty(),
    {
        self.map = Some(HashMap::new());
    }

    /// Takes the end that is kept for a node or stream.
    fn take_end(&mut self, id: u32, idx: Option<u32>) -> (res: Option<ChanType<S, R>>)
        requires
            old(self).fits(id, idx),
        ensures
            res == old(self).held(id, idx),
            final(self).same_except(*old(self), id, idx),
            final(self).fits(id, idx),
            final(self).held(id, idx) is None,
            final(self).map is Some,
            idx is Some && res is Some ==> final(self).entries().contains_key(id),
    {
        let ghost before = *self;
        let mut map = match self.map.take() {
            Some(map) => map,
            None => HashMap::new(),
        };
        let taken = match map.remove(&id) {
            Some(ChannelMapEntry::Single(chan)) => Some(chan),
            Some(ChannelMapEntry::Broadcast(mut chans)) => {
                let chan = match idx {
                    Some(i) => chans.remove(&i),
                    None => None,
                };
                map.insert(id, ChannelMapEntry::Broadcast(chans));
                chan
            },
            None => None,
        };
        self.map = Some(map);
        taken
    }

    /// Keeps an end for a node or stream for which none is kept.
    fn keep_end(&mut self, id: u32, idx: Option<u32>, chan: ChanType<S, R>)
        requires
            old(self).fits(id, idx),
            old(self).held(id, idx) is None,
        ensures
            final(self).same_except(*old(self), id, idx),
            final(self).fits(id, idx),
            final(self).held(id, idx) == Some(chan),
            final(self).map is Some,
    {
        let ghost before = *self;
        let mut map = match self.map.take() {
            Some(map) => map,
            None => HashMap::new(),
        };
        let entry = match idx {
            Some(i) => {
                let mut chans = match map.remove(&id) {
                    Some(ChannelMapEntry::Broadcast(chans)) => chans,
                    _ => HashMap::new(),
                };
                chans.insert(i, chan);
                ChannelMapEntry::Broadcast(chans)
            },
            None => ChannelMapEntry::Single(chan),
        };
        map.insert(id, entry);
        self.map = Some(map);
    }

    /// A receiver for a node or stream: the one that is kept, or that of a new
    /// channel, which `bounded` makes for a capacity.
    pub fn get_receiver<F: FnOnce(usize) -> (S, R)>(
        &mut self,
        id: u32,
        idx: Option<u32>,
        bounded: F,
        capacity: Option<usize>,
    ) -> (res: R)
        requires
            old(self).fits(id, idx),
            !(old(self).held(id, idx) matches Some(ChanType::Sender(_))),
            old(self).held(id, idx) is None ==> call_requires(bounded, (capacity_of(capacity),)),
        ensures
            final(self).map is Some,
            exists|made: Option<(S, R)>|
                {
                    &&& #[trigger] ChannelMap::hands_receiver(
                        *old(self),
                        id,
                        idx,
                        *final(self),
                        made,
                        res,
                    )
                    &&& made matches Some(pair) ==> call_ensures(
                        bounded,
                        (capacity_of(capacity),),
                        pair,
                    )
                },
    {
        let ghost before = *self;
        match self.take_end(id, idx) {
            Some(ChanType::Receiver(rcv)) => {
                assert(ChannelMap::hands_receiver(before, id, idx, *self, None, rcv));
                rcv
            },
            Some(ChanType::Sender(_)) => vstd::pervasive::unreached(),
            None => {
                let (snd, rcv) = bounded(capacity_or_default(capacity));
                let ghost pair = (snd, rcv);
                self.keep_end(id, idx, ChanType::Sender(snd));
                assert(ChannelMap::hands_receiver(before, id, idx, *self, Some(pair), rcv));
                rcv
            },
        }
    }

    /// A sender for a node or stream: the one that is kept, or that of a new
    /// channel, which `bounded` makes for a capacity.
    pub fn get_sender<F: FnOnce(usize) -> (S, R)>(
        &mut self,
        id: u32,
        idx: Option<u32>,
        bounded: F,
        capacity: Option<usize>,
    ) -> (res: S)
        requires
            old(self).fits(id, idx),
            !(old(self).held(id, idx) matches Some(ChanType::Receiver(_))),
            old(self).held(id, idx) is None ==> call_requires(bounded, (capacity_of(capacity),)),
        ensures
            final(self).map is Some,
            exists|made: Option<(S, R)>|
                {
                    &&& #[trigger] ChannelMap::hands_sender(
                        *old(self),
                        id,
                        idx,
                        *final(self),
                        made,
                        res,
                    )
                    &&& made matches Some(pair) ==> call_ensures(
                        bounded,
                        (capacity_of(capacity),),
                        pair,
                    )
                },
    {
        let ghost before = *self;
        match self.take_end(id, idx) {
            Some(ChanType::Sender(snd)) => {
                assert(ChannelMap::hands_sender(before, id, idx, *self, None, snd));
                snd
            },
            Some(ChanType::Receiver(_)) => vstd::pervasive::unreached(),
            None => {
                let (snd, rcv) = bounded(capacity_or_default(capacity));
                let ghost pair = (snd, rcv);
                self.keep_end(id, idx, ChanType::Receiver(rcv));
                assert(ChannelMap::hands_sender(before, id, idx, *self, Some(pair), snd));
                snd
            },
        }
    }
}

/// A sender and then a receiver, or the other way round, for the same node or
/// stream are the two ends of one channel, and nothing is kept of it.
pub proof fn law_two_ends_of_one_channel<S, R>(
    before: ChannelMap<S, R>,
    between: ChannelMap<S, R>,
    after: ChannelMap<S, R>,
    id: u32,
    idx: Option<u32>,
    made_first: Option<(S, R)>,
    made_second: Option<(S, R)>,
    snd: S,
    rcv: R,
)
    requires
        before.held(id, idx) is None,
        ({
            ||| ChannelMap::hands_sender(before, id, idx, between, made_first, snd)
                && ChannelMap::hands_receiver(between, id, idx, after, made_second, rcv)
            ||| ChannelMap::hands_receiver(before, id, idx, between, made_first, rcv)
                && ChannelMap::hands_sender(between, id, idx, after, made_second, snd)
        }),
    ensures
        made_first == Some((snd, rcv)),
        made_second is None,
        forall|other: u32, stream: Option<u32>| #[trigger]
            after.held(other, stream) == before.held(other, stream),
{
    assert forall|other: u32, stream: Option<u32>| #[trigger]
        after.held(other, stream) == before.held(other, stream) by {
        if other != id || stream != idx {
            assert(between.held(other, stream) == before.held(other, stream));
        }
    }
}

/// A new channel has the capacity that is asked for, or 1024 places if none is,
/// and the two ends that it is made with are the one that is handed out and the
/// one that is kept.
pub proof fn law_new_channel_has_capacity<S, R, F: FnOnce(usize) -> (S, R)>(
    id: u32,
    idx: Option<u32>,
    bounded: F,
    capacity: Option<usize>,
    size: usize,
)
    requires
        capacity == Some(size) || (capacity is None && size == 1024),
    ensures
        forall|channels: &mut ChannelMap<S, R>, rcv: R|
            channels.held(id, idx) is None && #[trigger] call_ensures(
                ChannelMap::<S, R>::get_receiver::<F>,
                (channels, id, idx, bounded, capacity),
                rcv,
            ) ==> exists|snd: S|
                {
                    &&& #[trigger] call_ensures(
                        bounded,
                        (size,),
                        (snd, rcv),
                    )
                    &&& final(channels).held(id, idx) == Some(ChanType::<S, R>::Sender(snd))
                },
        forall|channels: &mut ChannelMap<S, R>, snd: S|
            channels.held(id, idx) is None && #[trigger] call_ensures(
                ChannelMap::<S, R>::get_sender::<F>,
                (channels, id, idx, bounded, capacity),
                snd,
            ) ==> exists|rcv: R|
                {
                    &&& #[trigger] call_ensures(
                        bounded,
                        (size,),
                        (snd, rcv),
                    )
                    &&& final(channels).held(id, idx) == Some(ChanType::<S, R>::Receiver(rcv))
                },
{
}

} // verus!
