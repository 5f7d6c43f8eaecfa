//! From a route to the commands that make a turtle walk it.

use super::grid::{Grid, GridModel};
use super::point::Point3D;
use super::route::{step_at, unit_steps};
use vstd::prelude::*;
use vstd::string::StringExecFns;

verus! {

/// Something stands in the cell `b` and has to be dug away before it is
/// entered: the cell lies in the grid and costs more than 1.
pub open spec fn needs_dig(g: GridModel, b: Point3D) -> bool {
    g.contains(b) && g.cost(b) > 1
}

/// The commands for the unit step from `a` to `b`. East and west are +x and
/// -x, south and north are +z and -z, up and down are +y and -y. Before a
/// level step into a cell that needs digging the turtle turns to it and
/// digs; before a step up or down into such a cell it digs up or down.
pub open spec fn step_commands(g: GridModel, a: Point3D, b: Point3D) -> Seq<Seq<char>> {
    if b.x - a.x == 1 {
        if needs_dig(g, b) {
            seq!["faceeast"@, "dig"@, "east"@]
        } else {
            seq!["east"@]
        }
    } else if b.x - a.x == -1 {
        if needs_dig(g, b) {
            seq!["facewest"@, "dig"@, "west"@]
        } else {
            seq!["west"@]
        }
    } else if b.z - a.z == -1 {
        if needs_dig(g, b) {
            seq!["facenorth"@, "dig"@, "north"@]
        } else {
            seq!["north"@]
        }
    } else if b.z - a.z == 1 {
        if needs_dig(g, b) {
            seq!["facesouth"@, "dig"@, "south"@]
        } else {
            seq!["south"@]
        }
    } else if b.y - a.y == 1 {
        if needs_dig(g, b) {
            seq!["digup"@, "up"@]
        } else {
            seq!["up"@]
        }
    } else {
        if needs_dig(g, b) {
            seq!["digdown"@, "down"@]
        } else {
            seq!["down"@]
        }
    }
}

/// The commands for all steps of `path`, in order; none for a path of fewer than two points.
pub open spec fn route_commands(g: GridModel, path: Seq<Point3D>) -> Seq<Seq<char>>
    decreases path.len(),
{
    if path.len() <= 1 {
        Seq::empty()
    } else {
        route_commands(g, path.drop_last()) + step_commands(
            g,
            path[path.len() - 2],
            path[path.len() - 1],
        )
    }
}

/// The step from `path[i]` is the first of `path` that is not a unit step.
pub open spec fn first_bad_step(path: Seq<Point3D>, i: int) -> bool {
    &&& 0 <= i < path.len() - 1
    &&& !step_at(path, i)
    &&& forall|j: int| 0 <= j < i ==> #[trigger] step_at(path, j)
}

/// The text of each command.
pub open spec fn texts(commands: Seq<String>) -> Seq<Seq<char>> {
    commands.map_values(|s: String| s@)
}

/// The character of the digit `d`.
pub open spec fn digit(d: int) -> char {
    if d == 0 {
        '0'
    } else if d == 1 {
        '1'
    } else if d == 2 {
        '2'
    } else if d == 3 {
        '3'
    } else if d == 4 {
        '4'
    } else if d == 5 {
        '5'
    } else if d == 6 {
        '6'
    } else if d == 7 {
        '7'
    } else if d == 8 {
        '8'
    } else {
        '9'
    }
}

/// The decimal digits of `n`, without leading zeros.
pub open spec fn digits(n: nat) -> Seq<char>
    decreases n,
{
    if n < 10 {
        seq![digit(n as int)]
    } else {
        digits(n / 10).push(digit((n % 10) as int))
    }
}

/// The decimal form of `v`, with a minus sign where it is negative.
pub open spec fn decimal(v: int) -> Seq<char> {
    if v < 0 {
        seq!['-'] + digits((-v) as nat)
    } else {
        digits(v as nat)
    }
}

/// A point, written with its three named coordinates.
pub open spec fn point_text(p: Point3D) -> Seq<char> {
    "Point3D { x: "@ + decimal(p.x as int) + ", y: "@ + decimal(p.y as int) + ", z: "@ + decimal(
        p.z as int,
    ) + " }"@
}

/// The message that reports the step from `a` to `b` as invalid: the two
/// points, then the difference on each axis.
pub open spec fn invalid_step_text(a: Point3D, b: Point3D) -> Seq<char> {
    "Invalid step from "@ + point_text(a) + " to "@ + point_text(b) + " (dx="@ + decimal(b.x - a.x)
        + ", dy="@ + decimal(b.y - a.y) + ", dz="@ + decimal(b.z - a.z) + ")"@
}

/// The digit `d` as a text of one character.
fn digit_word(d: u64) -> (word: &'static str)
    requires
        d < 10,
    ensures
        word@ == seq![digit(d as int)],
{
    proof {
        reveal_strlit("0");
        reveal_strlit("1");
        reveal_strlit("2");
        reveal_strlit("3");
        reveal_strlit("4");
        reveal_strlit("5");
        reveal_strlit("6");
        reveal_strlit("7");
        reveal_strlit("8");
        reveal_strlit("9");
    }
    let word = if d == 0 {
        "0"
    } else if d == 1 {
        "1"
    } else if d == 2 {
        "2"
    } else if d == 3 {
        "3"
    } else if d == 4 {
        "4"
    } else if d == 5 {
        "5"
    } else if d == 6 {
        "6"
    } else if d == 7 {
        "7"
    } else if d == 8 {
        "8"
    } else {
        "9"
    };
    assert(word@ =~= seq![digit(d as int)]);
    word
}

/// Appends the decimal digits of `n`.
fn push_digits(out: &mut String, n: u64)
    ensures
        final(out)@ == old(out)@ + digits(n as nat),
    decreases n,
{
    if n >= 10 {
        push_digits(out, n / 10);
    }
    out.append(digit_word(n % 10));
    assert(out@ =~= old(out)@ + digits(n as nat));
}

/// Appends the decimal form of `v`.
fn push_decimal(out: &mut String, v: i64)
    requires
        v > i64::MIN,
    ensures
        final(out)@ == old(out)@ + decimal(v as int),
{
    if v < 0 {
        proof {
            reveal_strlit("-");
        }
        out.append("-");
        push_digits(out, (-v) as u64);
        assert(out@ =~= old(out)@ + decimal(v as int));
    } else {
        push_digits(out, v as u64);
    }
}

/// Appends the text of the point `p`.
fn push_point(out: &mut String, p: Point3D)
    ensures
        final(out)@ == old(out)@ + point_text(p),
{
    out.append("Point3D { x: ");
    push_decimal(out, p.x as i64);
    out.append(", y: ");
    push_decimal(out, p.y as i64);
    out.append(", z: ");
    push_decimal(out, p.z as i64);
    out.append(" }");
    assert(out@ =~= old(out)@ + point_text(p));
}

/// Writes the message that reports the step from `a` to `b` as invalid.
fn invalid_step_message(a: Point3D, b: Point3D) -> (msg: String)
    ensures
        msg@ == invalid_step_text(a, b),
{
    let mut msg = String::new();
    msg.append("Invalid step from ");
    push_point(&mut msg, a);
    msg.append(" to ");
    push_point(&mut msg, b);
    msg.append(" (dx=");
    push_decimal(&mut msg, b.x as i64 - a.x as i64);
    msg.append(", dy=");
    push_decimal(&mut msg, b.y as i64 - a.y as i64);
    msg.append(", dz=");
    push_decimal(&mut msg, b.z as i64 - a.z as i64);
    msg.append(")");
    assert(msg@ =~= invalid_step_text(a, b));
    msg
}

/// Appends the command `word`.
fn push_command(moves: &mut Vec<String>, word: &str)
    ensures
        texts(final(moves)@) == texts(old(moves)@).push(word@),
{
    moves.push(word.to_owned());
    assert(texts(moves@) =~= texts(old(moves)@).push(word@));
}

/// Turns `path` into the commands that walk it through `grid`.
///
/// Every two consecutive points must be neighbours; for the first pair that
/// is not, the result is an error with a message that names the pair. A
/// path of fewer than two points gives no command.
pub fn path_to_moves(grid: &Grid, path: &[Point3D]) -> (result: Result<Vec<String>, String>)
    ensures
        match result {
            Ok(moves) => unit_steps(path@) && texts(moves@) == route_commands(grid@, path@),
            Err(msg) => exists|i: int|
                #[trigger] first_bad_step(path@, i) && msg@ == invalid_step_text(
                    path@[i],
                    path@[i + 1],
                ),
        },
{
    let mut moves: Vec<String> = Vec::new();
    if path.len() <= 1 {
        assert(texts(moves@) =~= route_commands(grid@, path@));
        return Ok(moves);
    }
    let ghost g = grid@;
    proof {
        use_type_invariant(grid);
    }
    let mut i: usize = 0;
    assert(texts(moves@) =~= route_commands(g, path@.take(1)));
    while i < path.len() - 1
        invariant
            g == grid@,
            g.wf(),
            path@.len() >= 2,
            i <= path@.len() - 1,
            forall|j: int| 0 <= j < i ==> #[trigger] step_at(path@, j),
            texts(moves@) == route_commands(g, path@.take(i + 1)),
        decreases path@.len() - i,
    {
        let a: Point3D = path[i];
        let b: Point3D = path[i + 1];
        let dx: i64 = b.x as i64 - a.x as i64;
        let dy: i64 = b.y as i64 - a.y as i64;
        let dz: i64 = b.z as i64 - a.z as i64;
        let mut changed: u8 = 0;
        if dx != 0 {
            changed = changed + 1;
        }
        if dy != 0 {
            changed = changed + 1;
        }
        if dz != 0 {
            changed = changed + 1;
        }
        if changed != 1 || dx > 1 || dx < -1 || dy > 1 || dy < -1 || dz > 1 || dz < -1 {
            let msg = invalid_step_message(a, b);
            assert(first_bad_step(path@, i as int));
            return Err(msg);
        }
        assert(step_at(path@, i as int));
        let dig: bool = match grid.cost_point(b) {
            Some(cost) => cost > 1,
            None => false,
        };
        let ghost before = texts(moves@);
        if dx == 1 || dx == -1 || dz == 1 || dz == -1 {
            let (dir_word, face_word) = if dx == 1 {
                ("east", "faceeast")
            } else if dx == -1 {
                ("west", "facewest")
            } else if dz == -1 {
                ("north", "facenorth")
            } else {
                ("south", "facesouth")
            };
            if dig {
                push_command(&mut moves, face_word);
                push_command(&mut moves, "dig");
            }
            push_command(&mut moves, dir_word);
        } else {
            let (move_word, dig_word) = if dy == 1 {
                ("up", "digup")
            } else {
                ("down", "digdown")
            };
            if dig {
                push_command(&mut moves, dig_word);
            }
            push_command(&mut moves, move_word);
        }
        proof {
            let longer = path@.take(i + 2);
            assert(longer.drop_last() =~= path@.take(i + 1));
            assert(longer[longer.len() - 2] == a);
            assert(longer[longer.len() - 1] == b);
            assert(texts(moves@) =~= before + step_commands(g, a, b));
        }
        i = i + 1;
    }
    assert(path@.take(i + 1) =~= path@);
    Ok(moves)
}

} // verus!
