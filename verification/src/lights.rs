//! The light slots a renderer hands to its lighting shader: a fixed number
//! of slots, of which a prefix holds the scene's lights.
use vstd::prelude::*;

verus! {

/// The number of light slots.
pub const MAX_LIGHTS: usize = 1024;

/// The lights of a scene, in a fixed array of slots.
pub struct LightSlots<L> {
    lights: Vec<L>,
    num_lights: u32,
}

impl<L: Copy> LightSlots<L> {
    /// The contents of all the slots.
    pub closed spec fn slots(&self) -> Seq<L> {
        self.lights@
    }

    /// There are `MAX_LIGHTS` slots.
    pub closed spec fn wf(&self) -> bool {
        self.lights.len() == MAX_LIGHTS
    }

    /// The number of slots in use, from the first on.
    pub closed spec fn count(&self) -> u32 {
        self.num_lights
    }

    /// Every slot holds `fill`, and none is in use.
    pub fn new(fill: L) -> (s: Self)
        ensures
            s.wf(),
            s.slots() == Seq::new(MAX_LIGHTS as nat, |i: int| fill),
            s.count() == 0,
    {
        let mut lights: Vec<L> = Vec::new();
        let mut i: usize = 0;
        while i < MAX_LIGHTS
            invariant
                i <= MAX_LIGHTS,
                lights@ == Seq::new(i as nat, |k: int| fill),
            decreases MAX_LIGHTS - i,
        {
            lights.push(fill);
            proof {
                assert(lights@ =~= Seq::new((i + 1) as nat, |k: int| fill));
            }
            i = i + 1;
        }
        LightSlots { lights, num_lights: 0 }
    }

    /// Puts `lights` in the first slots and counts them; more lights than
    /// slots are refused, leaving everything as it was. The slots past the
    /// new lights keep what they held.
    pub fn update_lights(&mut self, lights: &[L])
        requires
            old(self).wf(),
        ensures
            final(self).wf(),
            final(self).slots().len() == MAX_LIGHTS,
            lights@.len() > MAX_LIGHTS ==> *final(self) == *old(self),
            lights@.len() <= MAX_LIGHTS ==> final(self).count() == lights@.len() && final(self).slots()
                == lights@ + old(self).slots().subrange(lights@.len() as int, MAX_LIGHTS as int),
    {
        if lights.len() > MAX_LIGHTS {
            return;
        }
        let mut i: usize = 0;
        while i < lights.len()
            invariant
                i <= lights.len() <= MAX_LIGHTS,
                self.lights.len() == MAX_LIGHTS,
                self.num_lights == old(self).num_lights,
                forall|k: int| 0 <= k < i ==> self.lights@[k] == lights@[k],
                forall|k: int| i <= k < MAX_LIGHTS ==> self.lights@[k] == old(self).lights@[k],
            decreases lights.len() - i,
        {
            self.lights.set(i, lights[i]);
            i = i + 1;
        }
        self.num_lights = lights.len() as u32;
        assert(self.lights@ =~= lights@ + old(self).lights@.subrange(lights@.len() as int, MAX_LIGHTS as int));
    }

    /// The contents of all the slots, for copying to the GPU.
    pub fn as_slice(&self) -> (slots: &[L])
        ensures
            slots@ == self.slots(),
            self.wf() ==> slots@.len() == MAX_LIGHTS,
    {
        self.lights.as_slice()
    }

    /// The number of slots in use.
    pub fn num_lights(&self) -> (n: u32)
        ensures
            n == self.count(),
    {
        self.num_lights
    }
}

} // verus!
