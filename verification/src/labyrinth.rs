//! The husbands' strategy for the labyrinth: each husband opens first the room numbered by his
//! wife's id, and then always the room numbered by the id of the wife he last found, following
//! the cycle of the permutation that holds his wife.
use vstd::prelude::*;

verus! {

/// A husband looking for his wife. He remembers her id and the next room to open.
#[derive(Debug)]
pub struct Husband {
    brain: [usize; 100],
}

impl Husband {
    /// The id of the wife he is looking for.
    pub closed spec fn wife(&self) -> usize {
        self.brain[0]
    }

    /// The room he will open next.
    pub closed spec fn next_room(&self) -> usize {
        self.brain[1]
    }

    /// A husband who looks for the wife with id `my_wife`: he opens her room first.
    pub fn seeking(my_wife: usize) -> (r: Self)
        ensures
            r.wife() == my_wife,
            r.next_room() == my_wife,
    {
        let mut brain = [0usize; 100];
        brain[0] = my_wife;
        brain[1] = my_wife;
        Husband { brain }
    }

    /// The strategy he follows: the rooms he will open, one at a time.
    pub fn has_devised_a_strategy(&self) -> (r: Strategy<'_>)
        ensures
            r.husband() == *self,
    {
        Strategy { husband: self }
    }

    /// He found the wife with id `wife` in room `room`: unless she is his own wife, the next
    /// room to open is hers.
    pub fn carefully_checks_whos_inside(&mut self, room: usize, wife: usize)
        ensures
            final(self).wife() == old(self).wife(),
            final(self).next_room() == if wife != old(self).wife() {
                wife
            } else {
                old(self).next_room()
            },
    {
        if wife != self.brain[0] {
            self.brain[1] = wife;
        }
    }
}

/// The rooms a husband opens, one at a time.
#[derive(Debug)]
pub struct Strategy<'a> {
    husband: &'a Husband,
}

impl<'a> Strategy<'a> {
    /// The husband who follows this strategy.
    pub closed spec fn husband(&self) -> Husband {
        *self.husband
    }

    /// The next room to open, by what the husband knows now. The strategy never runs out.
    pub fn next(&mut self) -> (r: Option<usize>)
        ensures
            r == Some(old(self).husband().next_room()),
            final(self).husband() == old(self).husband(),
    {
        Some(self.husband.brain[1])
    }
}

} // verus!
