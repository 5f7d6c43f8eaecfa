//! The turtles that have reported themselves.

use crate::pathfinder::point::Point3D;
use std::time::Instant;
use vstd::prelude::*;

verus! {

/// A moment on the monotonic clock of the process. Nothing is known of its value.
#[verifier::external_type_specification]
#[verifier::external_body]
pub struct ExInstant(Instant);

/// Reads the clock with `Instant::now`. Each call may give another
/// moment, so nothing is said of the result.
#[verifier::external_body]
fn now() -> Instant {
    Instant::now()
}

/// What is known of a turtle.
pub struct TurtleModel {
    pub position: Point3D,
    pub id: u32,
    pub facing: u8,
    pub name: Seq<char>,
    pub status: Seq<char>,
    /// The moment the turtle was last heard of.
    pub last_heartbeat: Instant,
}

/// A turtle: where it is, which way it faces (0 north, 1 south, 2 west,
/// 3 east), its name and status, and when it was last heard of.
pub struct Turtle {
    position: Point3D,
    id: u32,
    facing: u8,
    name: String,
    status: String,
    last_heartbeat: Instant,
}

impl View for Turtle {
    type V = TurtleModel;

    closed spec fn view(&self) -> TurtleModel {
        TurtleModel {
            position: self.position,
            id: self.id,
            facing: self.facing,
            name: self.name@,
            status: self.status@,
            last_heartbeat: self.last_heartbeat,
        }
    }
}

impl Turtle {
    /// A turtle that was heard of just now: its heartbeat is whatever the
    /// clock gave, all else is as given.
    pub fn new(position: Point3D, id: u32, facing: u8, name: String, status: String) -> (turtle:
        Self)
        ensures
            turtle@ == (TurtleModel {
                position,
                id,
                facing,
                name: name@,
                status: status@,
                last_heartbeat: turtle@.last_heartbeat,
            }),
    {
        Turtle { position, id, facing, name, status, last_heartbeat: now() }
    }

    /// The number of the turtle.
    pub fn id(&self) -> (id: u32)
        ensures
            id == self@.id,
    {
        self.id
    }

    /// Where the turtle is.
    pub fn position(&self) -> (position: Point3D)
        ensures
            position == self@.position,
    {
        self.position
    }

    /// The moment the turtle was last heard of.
    pub fn last_heartbeat(&self) -> (moment: Instant)
        ensures
            moment == self@.last_heartbeat,
    {
        self.last_heartbeat
    }
}

/// The turtle at `i` is the first of `turtles` with the number `id`.
pub open spec fn is_first_with(turtles: Seq<TurtleModel>, id: u32, i: int) -> bool {
    &&& 0 <= i < turtles.len()
    &&& turtles[i].id == id
    &&& forall|j: int| 0 <= j < i ==> (#[trigger] turtles[j]).id != id
}

/// The registered turtles, in the order in which they came.
pub struct Turtles {
    turtles: Vec<Turtle>,
}

impl View for Turtles {
    type V = Seq<TurtleModel>;

    closed spec fn view(&self) -> Seq<TurtleModel> {
        self.turtles@.map_values(|t: Turtle| t@)
    }
}

impl Turtles {
    /// A registry without turtles.
    pub fn new() -> (registry: Self)
        ensures
            registry@ == Seq::<TurtleModel>::empty(),
    {
        let registry = Turtles { turtles: Vec::new() };
        assert(registry@ =~= Seq::<TurtleModel>::empty());
        registry
    }

    /// Registers `turtle` behind all others.
    pub fn add_turtle(&mut self, turtle: Turtle)
        ensures
            final(self)@ == old(self)@.push(turtle@),
    {
        self.turtles.push(turtle);
        assert(self@ =~= old(self)@.push(turtle@));
    }

    /// The first turtle registered with the number `id`, if there is one.
    pub fn get_turtle(&self, id: u32) -> (found: Option<&Turtle>)
        ensures
            match found {
                Some(turtle) => exists|i: int|
                    #[trigger] is_first_with(self@, id, i) && self@[i] == turtle@,
                None => forall|i: int| 0 <= i < self@.len() ==> (#[trigger] self@[i]).id != id,
            },
    {
        let mut i: usize = 0;
        while i < self.turtles.len()
            invariant
                i <= self.turtles@.len(),
                forall|j: int| 0 <= j < i ==> (#[trigger] self@[j]).id != id,
            decreases self.turtles@.len() - i,
        {
            if self.turtles[i].id == id {
                assert(is_first_with(self@, id, i as int));
                return Some(&self.turtles[i]);
            }
            i = i + 1;
        }
        None
    }
}

} // verus!
