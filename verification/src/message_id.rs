//! Numbers for messages: every number is one above the number minted before it.
use vstd::prelude::*;

verus! {

/// A source of message numbers.
#[derive(Debug)]
pub struct MessageId {
    id: u64,
}

impl MessageId {
    /// The number minted last, or zero.
    pub closed spec fn last(&self) -> u64 {
        self.id
    }

    /// A source that has minted nothing yet.
    pub fn new() -> (fresh: Self)
        ensures
            fresh.last() == 0,
    {
        MessageId { id: 0 }
    }

    /// The number minted last, or zero.
    pub fn last_id(&self) -> (id: u64)
        ensures
            id == self.last(),
    {
        self.id
    }

    /// Mints the next number.
    pub fn next(&mut self) -> (id: u64)
        requires
            old(self).last() < u64::MAX,
        ensures
            id == old(self).last() + 1,
            final(self).last() == id,
    {
        self.id = self.id + 1;
        self.id
    }
}

impl MessageId {
    /// Sets numbers aside for another user: the returned source continues from here, and this
    /// one goes on behind the numbers that were set aside. Nothing is set aside where there are
    /// not enough numbers left.
    pub fn reserve(&mut self, count: u128) -> (reserved: Option<MessageId>)
        ensures
            reserved is Some <==> old(self).last() + count <= u64::MAX,
            reserved matches Some(source) ==> {
                &&& source.last() == old(self).last()
                &&& final(self).last() == old(self).last() + count
            },
            reserved is None ==> *final(self) == *old(self),
    {
        let left: u128 = (u64::MAX - self.id) as u128;
        if count > left {
            return None;
        }
        let source = MessageId { id: self.id };
        self.id = self.id + count as u64;
        Some(source)
    }
}

impl Default for MessageId {
    fn default() -> (fresh: Self)
        ensures
            fresh.last() == 0,
    {
        MessageId::new()
    }
}

/// A number that was minted: who asked for it, and what was minted last before it.
pub struct Minting {
    pub by: nat,
    pub last: u64,
    pub id: u64,
}

/// Numbers that were minted one after the other from one fresh source.
pub open spec fn minted_in_turn(mintings: Seq<Minting>) -> bool {
    &&& mintings.len() > 0 ==> mintings[0].last == 0
    &&& forall|i: int| 0 <= i < mintings.len() ==> (#[trigger] mintings[i]).id == mintings[i].last + 1
    &&& forall|i: int| 0 < i < mintings.len() ==> (#[trigger] mintings[i]).last == mintings[i - 1].id
}

/// However many users share a source and in whatever order they ask, together they get each
/// number from one on once, and the numbers of each user rise.
pub proof fn lemma_shared_source_mints_each_number_once(mintings: Seq<Minting>)
    requires
        minted_in_turn(mintings),
    ensures
        forall|i: int| 0 <= i < mintings.len() ==> (#[trigger] mintings[i]).id == i + 1,
        forall|i: int, j: int|
            0 <= i < j < mintings.len() && mintings[i].by == mintings[j].by ==> (
            #[trigger] mintings[i]).id < (#[trigger] mintings[j]).id,
    decreases mintings.len(),
{
    if mintings.len() > 0 {
        let before = mintings.drop_last();
        assert(minted_in_turn(before)) by {
            assert forall|i: int| 0 <= i < before.len() implies (#[trigger] before[i]).id
                == before[i].last + 1 by {
                assert(before[i] == mintings[i]);
            }
            assert forall|i: int| 0 < i < before.len() implies (#[trigger] before[i]).last
                == before[i - 1].id by {
                assert(before[i] == mintings[i] && before[i - 1] == mintings[i - 1]);
            }
        }
        lemma_shared_source_mints_each_number_once(before);
        let last = mintings.len() - 1;
        if last > 0 {
            assert(mintings[last].last == mintings[last - 1].id);
            assert(before[last - 1] == mintings[last - 1]);
        }
        assert forall|i: int| 0 <= i < mintings.len() implies (#[trigger] mintings[i]).id == i
            + 1 by {
            if i < last {
                assert(before[i] == mintings[i]);
            }
        }
    }
}

} // verus!
