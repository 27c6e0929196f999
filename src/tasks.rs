use vstd::prelude::*;

verus! {

/// The coordinates of a block in the world.
#[derive(Copy, Clone, Debug, PartialEq, Eq, Structural)]
pub struct BlockLocation {
    pub x: i64,
    pub y: i64,
    pub z: i64,
}

/// A face of a block.
#[derive(Copy, Clone, Debug, PartialEq, Eq, Structural)]
pub enum Face {
    NegY,
    PosY,
    NegZ,
    PosZ,
    NegX,
    PosX,
}

/// Says whether a node of a search stands on the goal block.
pub struct NoVehicleGoalCheck {
    goal: BlockLocation,
}

impl NoVehicleGoalCheck {
    pub closed spec fn goal(&self) -> BlockLocation {
        self.goal
    }

    pub fn new(goal: BlockLocation) -> (r: Self)
        ensures
            r.goal() == goal,
    {
        Self { goal }
    }

    pub fn is_goal(&self, location: &BlockLocation) -> (r: bool)
        ensures
            r == (*location == self.goal()),
    {
        *location == self.goal
    }
}

/// What one tick of mining asks the client to send.
#[derive(Copy, Clone, Debug, PartialEq, Eq, Structural)]
pub struct MineTick {
    /// Send the start-digging packet before this tick's arm swing.
    pub start: bool,
    /// Send the finished-digging packet after it: the block is then gone.
    pub finish: bool,
}

/// Digging one block: a start packet on the first tick, an arm swing on every tick,
/// and a finish packet once the tool's wait has run out.
pub struct MineTask {
    ticks: usize,
    first: bool,
    location: BlockLocation,
    face: Face,
}

impl MineTask {
    pub closed spec fn ticks_left(&self) -> nat {
        self.ticks as nat
    }

    pub closed spec fn started(&self) -> bool {
        !self.first
    }

    pub closed spec fn location(&self) -> BlockLocation {
        self.location
    }

    pub closed spec fn face(&self) -> Face {
        self.face
    }

    /// A task on `location` whose tool needs `wait_time` ticks; digging starts on the
    /// top face.
    pub fn new(location: BlockLocation, wait_time: usize) -> (r: MineTask)
        requires
            wait_time < usize::MAX,
        ensures
            r.ticks_left() == wait_time + 1,
            !r.started(),
            r.location() == location,
            r.face() == Face::PosY,
    {
        MineTask { ticks: wait_time + 1, location, face: Face::PosY, first: true }
    }

    pub fn set_face(&mut self, face: Face)
        ensures
            final(self).face() == face,
            final(self).ticks_left() == old(self).ticks_left(),
            final(self).started() == old(self).started(),
            final(self).location() == old(self).location(),
    {
        self.face = face;
    }

    pub fn get_location(&self) -> (r: BlockLocation)
        ensures
            r == self.location(),
    {
        self.location
    }

    pub fn get_face(&self) -> (r: Face)
        ensures
            r == self.face(),
    {
        self.face
    }

    /// Advances by one tick: says which packets go out, and counts the wait down.
    pub fn tick(&mut self) -> (r: MineTick)
        ensures
            r.start == !old(self).started(),
            final(self).started(),
            r.finish == (old(self).ticks_left() == 0),
            r.finish ==> final(self).ticks_left() == 0,
            !r.finish ==> final(self).ticks_left() == old(self).ticks_left() - 1,
            final(self).location() == old(self).location(),
            final(self).face() == old(self).face(),
    {
        let start = self.first;
        self.first = false;
        if self.ticks == 0 {
            MineTick { start, finish: true }
        } else {
            self.ticks = self.ticks - 1;
            MineTick { start, finish: false }
        }
    }
}

} // verus!
