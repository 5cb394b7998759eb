//! The decisions of placing the images of a scene in the image atlas: which
//! image to place next, when to grow the atlas, and when to start over.
//!
//! The atlas itself does the placing and growing; after each of its answers,
//! [`ImagePlacement`] says what to ask of it next.

use vstd::prelude::*;

verus! {

/// What to ask of the atlas next.
#[derive(Copy, Clone, PartialEq, Eq, Debug, Structural)]
pub enum PlacementAction {
    /// Place the image with this index.
    Place(usize),
    /// Grow the atlas: the image being placed did not fit.
    Grow,
    /// Every image has been placed or has no place.
    Done,
}

/// The state of placing a number of images in the atlas, one after another.
pub struct ImagePlacement {
    next: usize,
    places: Vec<Option<(u32, u32)>>,
}

impl ImagePlacement {
    /// The index of the image being placed.
    pub closed spec fn next(&self) -> nat {
        self.next as nat
    }

    /// The place found so far for each image.
    pub closed spec fn places(&self) -> Seq<Option<(u32, u32)>> {
        self.places@
    }

    /// The progress measure: the number of images still to be placed since
    /// the atlas last grew. Placing an image, or giving it no place, lowers
    /// it; only growing the atlas raises it, so the placement ends as long as
    /// the atlas can grow only a bounded number of times.
    pub closed spec fn remaining(&self) -> nat {
        (self.places@.len() - self.next) as nat
    }

    /// The placement is in progress over its images.
    pub closed spec fn well_formed(&self) -> bool {
        self.next <= self.places@.len()
    }

    /// The action that follows when the image at `next` is to be placed.
    pub open spec fn action_at(next: nat, n: nat) -> PlacementAction {
        if next < n {
            PlacementAction::Place(next as usize)
        } else {
            PlacementAction::Done
        }
    }

    /// Starts placing `n` images, none of which has a place yet.
    pub fn new(n: usize) -> (r: (Self, PlacementAction))
        ensures
            r.0.well_formed(),
            r.0.next() == 0,
            r.0.places() == Seq::new(n as nat, |i: int| None::<(u32, u32)>),
            r.1 == Self::action_at(0, n as nat),
    {
        let mut places: Vec<Option<(u32, u32)>> = Vec::new();
        let mut i: usize = 0;
        while i < n
            invariant
                i <= n,
                places@ == Seq::new(i as nat, |j: int| None::<(u32, u32)>),
            decreases n - i,
        {
            places.push(None);
            i = i + 1;
            assert(places@ =~= Seq::new(i as nat, |j: int| None::<(u32, u32)>));
        }
        let state = ImagePlacement { next: 0, places };
        let action = if n > 0 {
            PlacementAction::Place(0)
        } else {
            PlacementAction::Done
        };
        (state, action)
    }

    /// Takes the atlas's answer to placing the current image: with a place,
    /// records it and moves on to the next image; without one, asks for the
    /// atlas to grow.
    pub fn placed(&mut self, place: Option<(u32, u32)>) -> (action: PlacementAction)
        requires
            old(self).well_formed(),
            old(self).next() < old(self).places().len(),
        ensures
            final(self).well_formed(),
            place matches Some(xy) ==> final(self).places() == old(self).places().update(
                old(self).next() as int,
                Some(xy),
            ) && final(self).next() == old(self).next() + 1 && action == Self::action_at(
                old(self).next() + 1,
                old(self).places().len(),
            ),
            place is Some ==> final(self).remaining() < old(self).remaining(),
            place is None ==> *final(self) == *old(self) && action == PlacementAction::Grow,
    {
        let n = self.places.len();
        match place {
            Some(xy) => {
                self.places.set(self.next, Some(xy));
                self.next = self.next + 1;
                if self.next < n {
                    PlacementAction::Place(self.next)
                } else {
                    PlacementAction::Done
                }
            },
            None => PlacementAction::Grow,
        }
    }

    /// Takes the atlas's answer to growing: when it grew, starts over from
    /// the first image; when it could not, the current image gets no place and
    /// the next one is placed.
    pub fn grown(&mut self, grew: bool) -> (action: PlacementAction)
        requires
            old(self).well_formed(),
            old(self).next() < old(self).places().len(),
        ensures
            final(self).well_formed(),
            grew ==> final(self).next() == 0 && final(self).places() == old(self).places()
                && action == PlacementAction::Place(0) && final(self).remaining()
                == final(self).places().len(),
            !grew ==> final(self).remaining() < old(self).remaining(),
            !grew ==> final(self).places() == old(self).places().update(
                old(self).next() as int,
                None,
            ) && final(self).next() == old(self).next() + 1 && action == Self::action_at(
                old(self).next() + 1,
                old(self).places().len(),
            ),
    {
        if grew {
            self.next = 0;
            PlacementAction::Place(0)
        } else {
            let n = self.places.len();
            self.places.set(self.next, None);
            self.next = self.next + 1;
            if self.next < n {
                PlacementAction::Place(self.next)
            } else {
                PlacementAction::Done
            }
        }
    }

    /// Returns the place found for each image.
    pub fn into_places(self) -> (r: Vec<Option<(u32, u32)>>)
        ensures
            r@ == self.places(),
    {
        self.places
    }
}

} // verus!
