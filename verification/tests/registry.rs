use turtle_manager::job::{JobId, JobStatus};
use turtle_manager::pathfinder::Point3D;
use turtle_manager::turtle::{Turtle, Turtles};

fn turtle(id: u32, x: i32) -> Turtle {
    Turtle::new(Point3D::new(x, 0, 0), id, 0, format!("turtle-{}", id), "idle".to_string())
}

#[test]
fn new_registry_is_empty() {
    let turtles = Turtles::new();
    assert!(turtles.get_turtle(0).is_none());
}

#[test]
fn registered_turtle_is_found_by_its_number() {
    let mut turtles = Turtles::new();
    turtles.add_turtle(turtle(7, 1));
    turtles.add_turtle(turtle(9, 2));
    assert_eq!(turtles.get_turtle(9).unwrap().position(), Point3D::new(2, 0, 0));
    assert_eq!(turtles.get_turtle(7).unwrap().id(), 7);
    assert!(turtles.get_turtle(8).is_none());
}

#[test]
fn first_of_two_turtles_with_one_number_is_found() {
    let mut turtles = Turtles::new();
    turtles.add_turtle(turtle(7, 1));
    turtles.add_turtle(turtle(7, 2));
    assert_eq!(turtles.get_turtle(7).unwrap().position(), Point3D::new(1, 0, 0));
}

#[test]
fn heartbeat_is_taken_when_the_turtle_is_made() {
    let before = std::time::Instant::now();
    let t = turtle(1, 0);
    let after = std::time::Instant::now();
    assert!(before <= t.last_heartbeat());
    assert!(t.last_heartbeat() <= after);
}

#[test]
fn job_number_is_kept() {
    let id = JobId::new(42);
    assert_eq!(id.get(), 42);
    assert_eq!(id, JobId::new(42));
    assert_ne!(id, JobId::new(43));
}

#[test]
fn job_states_differ() {
    assert_ne!(JobStatus::Pending, JobStatus::InProgress);
    assert_eq!(JobStatus::Done, JobStatus::Done);
    assert_ne!(JobStatus::Paused, JobStatus::Failed);
}
