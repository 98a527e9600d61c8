//! Decisions of the robot's control loop: which command goes out on which link, how
//! keys steer the program, how a jumpy car position is held back, when the field
//! corners have moved, and what the drive does once the heading is known.
//! The loop itself (camera, sockets, sleeps, floating-point heading) runs outside;
//! it hands these functions plain values and performs the steps they return.
use vstd::prelude::*;
use crate::geometry::{Position, sq_dist, squared_distance};
use crate::features::trunc_div;
use crate::path::{find_nearest_ball, is_last_nearest, bounds, is_bounding_box, ObstacleBounds, Obstacles};

verus! {

/// A command understood by the suction unit or the drive.
#[derive(Debug, Clone, Copy, PartialEq, Eq, Structural)]
pub enum Command {
    Arm,
    Close,
    Start,
    Pick,
    Stop,
    Forward,
    Backward,
    Left,
    Right,
}

/// The two links: the suction unit and the drive.
#[derive(Debug, Clone, Copy, PartialEq, Eq, Structural)]
pub enum Link {
    Suction,
    Drive,
}

/// A command is written when the link is up and it differs from the last one logged.
pub open spec fn sends(connected: bool, cmd: Command, last: Option<Command>) -> bool {
    connected && last != Some(cmd)
}

/// The log after offering `cmd`: it holds `cmd` when `cmd` was written.
pub open spec fn log_after(connected: bool, cmd: Command, last: Option<Command>) -> Option<Command> {
    if sends(connected, cmd, last) {
        Some(cmd)
    } else {
        last
    }
}

/// Whether `cmd` has to be written now. Nothing is written without a connection, and a
/// command equal to the last one written through the same log is not repeated; when
/// it is written, the log holds it afterwards.
pub fn send_command(connected: bool, cmd: Command, last_command: &mut Option<Command>) -> (send: bool)
    ensures
        send == sends(connected, cmd, *old(last_command)),
        *final(last_command) == log_after(connected, cmd, *old(last_command)),
{
    if !connected {
        return false;
    }
    let repeat = match *last_command {
        Some(c) => c == cmd,
        None => false,
    };
    if repeat {
        false
    } else {
        *last_command = Some(cmd);
        true
    }
}

/// One step of a command sequence: the command, the link it goes out on, the link whose
/// log deduplicates it, and the pause after it in milliseconds.
#[derive(Debug, Clone, Copy, PartialEq, Eq, Structural)]
pub struct Step {
    pub link: Link,
    pub log: Link,
    pub command: Command,
    pub pause_ms: u64,
}

pub open spec fn step(link: Link, log: Link, command: Command, pause_ms: u64) -> Step {
    Step { link, log, command, pause_ms }
}

fn mk(link: Link, log: Link, command: Command, pause_ms: u64) -> (s: Step)
    ensures
        s == step(link, log, command, pause_ms),
{
    Step { link, log, command, pause_ms }
}

/// Before the loop: arm the suction unit and close the drive; the close goes through
/// the suction unit's log.
pub open spec fn startup_spec() -> Seq<Step> {
    seq![
        step(Link::Suction, Link::Suction, Command::Arm, 0),
        step(Link::Drive, Link::Suction, Command::Close, 0),
    ]
}

pub fn startup_steps() -> (v: Vec<Step>)
    ensures
        v@ == startup_spec(),
{
    let mut v: Vec<Step> = Vec::new();
    v.push(mk(Link::Suction, Link::Suction, Command::Arm, 0));
    v.push(mk(Link::Drive, Link::Suction, Command::Close, 0));
    assert(v@ =~= startup_spec());
    v
}

/// The phases of a run.
#[derive(Debug, Clone, Copy, PartialEq, Eq, Structural)]
pub enum ProgramState {
    Config,
    Run,
    EndGoToPos,
    EndTurnAround,
    EndOpen,
    EndShakeItOut,
    End,
}

/// What a key asks for beyond moving the end position or changing the phase.
#[derive(Debug, Clone, Copy, PartialEq, Eq, Structural)]
pub enum KeyEffect {
    Nothing,
    /// Re-arm the suction unit.
    Arm,
    /// Store the end position.
    SaveEndPos,
}

/// Key codes: w, a, d, s move the end position by 5 pixels; p re-arms; 1 centres the
/// end position in the frame; 2 starts the run; 3 to 7 jump to the end phases.
pub const KEY_UP: i32 = 119;
pub const KEY_LEFT: i32 = 97;
pub const KEY_RIGHT: i32 = 100;
pub const KEY_DOWN: i32 = 115;
pub const KEY_ARM: i32 = 112;
pub const KEY_CENTER: i32 = 49;
pub const KEY_RUN: i32 = 50;
pub const KEY_GO_TO_POS: i32 = 51;
pub const KEY_TURN_AROUND: i32 = 52;
pub const KEY_OPEN: i32 = 53;
pub const KEY_SHAKE: i32 = 54;
pub const KEY_END: i32 = 55;

/// The end position after `key`.
pub open spec fn key_pos(key: i32, p: Position, cols: i32, rows: i32) -> Position {
    if key == KEY_UP {
        Position { x: p.x, y: (p.y - 5) as i32 }
    } else if key == KEY_LEFT {
        Position { x: (p.x - 5) as i32, y: p.y }
    } else if key == KEY_RIGHT {
        Position { x: (p.x + 5) as i32, y: p.y }
    } else if key == KEY_DOWN {
        Position { x: p.x, y: (p.y + 5) as i32 }
    } else if key == KEY_CENTER {
        Position { x: trunc_div(cols as int, 2) as i32, y: trunc_div(rows as int, 2) as i32 }
    } else {
        p
    }
}

/// The phase after `key`.
pub open spec fn key_state(key: i32, s: ProgramState) -> ProgramState {
    if key == KEY_RUN {
        ProgramState::Run
    } else if key == KEY_GO_TO_POS {
        ProgramState::EndGoToPos
    } else if key == KEY_TURN_AROUND {
        ProgramState::EndTurnAround
    } else if key == KEY_OPEN {
        ProgramState::EndOpen
    } else if key == KEY_SHAKE {
        ProgramState::EndShakeItOut
    } else if key == KEY_END {
        ProgramState::End
    } else {
        s
    }
}

/// The moves of the end position stay within i32.
pub open spec fn key_fits(key: i32, p: Position) -> bool {
    &&& key == KEY_UP ==> p.y - 5 >= i32::MIN
    &&& key == KEY_LEFT ==> p.x - 5 >= i32::MIN
    &&& key == KEY_RIGHT ==> p.x + 5 <= i32::MAX
    &&& key == KEY_DOWN ==> p.y + 5 <= i32::MAX
}

/// Half of `v`, rounded toward zero.
fn half(v: i32) -> (h: i32)
    ensures
        h == trunc_div(v as int, 2),
{
    let w = v as i64;
    if w >= 0 {
        (w / 2) as i32
    } else {
        (-((-w) / 2)) as i32
    }
}

/// Whether `key` can be applied to the end position `p` without leaving i32.
pub fn key_in_range(key: i32, p: Position) -> (ok: bool)
    ensures
        ok == key_fits(key, p),
{
    !(key == KEY_UP && p.y < i32::MIN + 5) && !(key == KEY_LEFT && p.x < i32::MIN + 5) && !(key == KEY_RIGHT
        && p.x > i32::MAX - 5) && !(key == KEY_DOWN && p.y > i32::MAX - 5)
}

/// Applies a pressed key to the end position and the phase (`cols` x `rows` is the
/// frame size) and says what else it asks for.
pub fn handle_key(
    key: i32,
    end_pos: &mut Position,
    state: &mut ProgramState,
    cols: i32,
    rows: i32,
) -> (e: KeyEffect)
    requires
        key_fits(key, *old(end_pos)),
    ensures
        *final(end_pos) == key_pos(key, *old(end_pos), cols, rows),
        *final(state) == key_state(key, *old(state)),
        e == (if key == KEY_ARM {
            KeyEffect::Arm
        } else if key == KEY_RUN {
            KeyEffect::SaveEndPos
        } else {
            KeyEffect::Nothing
        }),
{
    if key == KEY_UP {
        end_pos.y = end_pos.y - 5;
    } else if key == KEY_LEFT {
        end_pos.x = end_pos.x - 5;
    } else if key == KEY_RIGHT {
        end_pos.x = end_pos.x + 5;
    } else if key == KEY_DOWN {
        end_pos.y = end_pos.y + 5;
    } else if key == KEY_ARM {
        return KeyEffect::Arm;
    } else if key == KEY_CENTER {
        end_pos.x = half(cols);
        end_pos.y = half(rows);
    } else if key == KEY_RUN {
        *state = ProgramState::Run;
        return KeyEffect::SaveEndPos;
    } else if key == KEY_GO_TO_POS {
        *state = ProgramState::EndGoToPos;
    } else if key == KEY_TURN_AROUND {
        *state = ProgramState::EndTurnAround;
    } else if key == KEY_OPEN {
        *state = ProgramState::EndOpen;
    } else if key == KEY_SHAKE {
        *state = ProgramState::EndShakeItOut;
    } else if key == KEY_END {
        *state = ProgramState::End;
    }
    KeyEffect::Nothing
}

/// A fixed part of a frame, chosen by the phase before any image work.
#[derive(Debug, Clone, Copy, PartialEq, Eq, Structural)]
pub enum Script {
    /// Go on with detection and driving.
    Drive,
    /// Empty the robot at the end position.
    Open,
    /// Shake the last balls out.
    ShakeOut,
    /// The run is over.
    Finish,
}

/// The script of a phase, with the phase it leads to; in `EndGoToPos` the target
/// becomes the end position.
pub fn frame_script(state: &mut ProgramState, end_pos: Position, target: &mut Option<Position>) -> (s: Script)
    ensures
        s == (match *old(state) {
            ProgramState::EndOpen => Script::Open,
            ProgramState::EndShakeItOut => Script::ShakeOut,
            ProgramState::End => Script::Finish,
            _ => Script::Drive,
        }),
        *final(state) == (match *old(state) {
            ProgramState::EndOpen => ProgramState::EndShakeItOut,
            ProgramState::EndShakeItOut => ProgramState::End,
            _ => *old(state),
        }),
        *final(target) == (if *old(state) == ProgramState::EndGoToPos {
            Some(end_pos)
        } else {
            *old(target)
        }),
{
    match *state {
        ProgramState::EndGoToPos => {
            *target = Some(end_pos);
            Script::Drive
        },
        ProgramState::EndOpen => {
            *state = ProgramState::EndShakeItOut;
            Script::Open
        },
        ProgramState::EndShakeItOut => {
            *state = ProgramState::End;
            Script::ShakeOut
        },
        ProgramState::End => Script::Finish,
        _ => Script::Drive,
    }
}

/// The command sequence of a script.
pub open spec fn script_spec(s: Script) -> Seq<Step> {
    match s {
        Script::Open => seq![
            step(Link::Suction, Link::Suction, Command::Start, 5000),
            step(Link::Drive, Link::Drive, Command::Pick, 1000),
            step(Link::Drive, Link::Drive, Command::Stop, 0),
            step(Link::Suction, Link::Suction, Command::Stop, 5000),
        ],
        Script::ShakeOut => seq![
            step(Link::Drive, Link::Drive, Command::Forward, 1000),
            step(Link::Drive, Link::Drive, Command::Backward, 1000),
            step(Link::Drive, Link::Drive, Command::Stop, 0),
        ],
        _ => seq![],
    }
}

pub fn script_steps(s: Script) -> (v: Vec<Step>)
    ensures
        v@ == script_spec(s),
{
    let mut v: Vec<Step> = Vec::new();
    match s {
        Script::Open => {
            v.push(mk(Link::Suction, Link::Suction, Command::Start, 5000));
            v.push(mk(Link::Drive, Link::Drive, Command::Pick, 1000));
            v.push(mk(Link::Drive, Link::Drive, Command::Stop, 0));
            v.push(mk(Link::Suction, Link::Suction, Command::Stop, 5000));
        },
        Script::ShakeOut => {
            v.push(mk(Link::Drive, Link::Drive, Command::Forward, 1000));
            v.push(mk(Link::Drive, Link::Drive, Command::Backward, 1000));
            v.push(mk(Link::Drive, Link::Drive, Command::Stop, 0));
        },
        _ => {},
    }
    assert(v@ =~= script_spec(s));
    v
}

/// Largest accepted jump of the car between frames, squared (60 px).
pub const JITTER_REJECT_SQ: i32 = 3600;

/// The remembered position is still the origin: no car has been accepted yet.
pub open spec fn is_origin(p: Position) -> bool {
    p.x == 0 && p.y == 0
}

/// The car position used for a sighting `car` when `last` is remembered.
pub open spec fn jitter_spec(car: Position, last: Position) -> Position {
    if is_origin(last) {
        car
    } else if sq_dist(car, last) > JITTER_REJECT_SQ {
        last
    } else {
        car
    }
}

/// The positions used for successive sightings, starting from `last`.
pub open spec fn jitter_run(last: Position, cars: Seq<Position>) -> Seq<Position>
    decreases cars.len(),
{
    if cars.len() == 0 {
        Seq::empty()
    } else {
        let p = jitter_spec(cars[0], last);
        seq![p] + jitter_run(p, cars.drop_first())
    }
}

/// The car position to use this frame. The first sighting (while the remembered
/// position is still the origin) is taken as it is; after that a jump of more than
/// 60 px is rejected in favour of the remembered position, and an accepted position is
/// remembered.
pub fn clamp_jitter(car_center: Position, last_car_pos: &mut Position) -> (p: Position)
    requires
        !(old(last_car_pos).x == 0 && old(last_car_pos).y == 0) ==> sq_dist(car_center, *old(last_car_pos))
            <= i32::MAX,
    ensures
        p == jitter_spec(car_center, *old(last_car_pos)),
        *final(last_car_pos) == p,
{
    if last_car_pos.x == 0 && last_car_pos.y == 0 {
        *last_car_pos = car_center;
        car_center
    } else {
        let d2 = squared_distance(&car_center, last_car_pos);
        if d2 > JITTER_REJECT_SQ {
            *last_car_pos
        } else {
            *last_car_pos = car_center;
            car_center
        }
    }
}

/// Largest corner movement that does not call for a new ground mapping, squared (30 px).
pub const CORNER_MOVE_SQ: i32 = 900;

/// Some corner moved more than 30 px.
pub open spec fn moved(corners: Seq<Position>, prev: Seq<Position>) -> bool {
    exists|i: int| 0 <= i < 4 && sq_dist(#[trigger] corners[i], prev[i]) > CORNER_MOVE_SQ
}

/// Each corner's squared move fits in i32.
pub open spec fn moves_fit(corners: Seq<Position>, prev: Seq<Position>) -> bool {
    forall|i: int| 0 <= i < 4 ==> sq_dist(#[trigger] corners[i], prev[i]) <= i32::MAX
}

/// Whether the ground mapping has to be built again from `corners`: when none was
/// built yet, or when a corner moved more than 30 px since the corners it was built
/// from.
pub fn need_rebuild(h_corners: &Option<[Position; 4]>, corners: &[Position; 4]) -> (b: bool)
    requires
        h_corners matches Some(prev) ==> moves_fit(corners@, prev@),
    ensures
        b == (match *h_corners {
            None => true,
            Some(prev) => moved(corners@, prev@),
        }),
{
    match h_corners {
        None => true,
        Some(prev) => {
            let mut m = false;
            let mut i: usize = 0;
            while i < 4
                invariant
                    0 <= i <= 4,
                    moves_fit(corners@, prev@),
                    corners@.len() == 4,
                    prev@.len() == 4,
                    m == exists|j: int| 0 <= j < i && sq_dist(#[trigger] corners@[j], prev@[j]) > CORNER_MOVE_SQ,
                decreases 4 - i,
            {
                assert(sq_dist(corners@[i as int], prev@[i as int]) <= i32::MAX);
                let d = squared_distance(&corners[i], &prev[i]);
                if d > CORNER_MOVE_SQ {
                    m = true;
                }
                i = i + 1;
            }
            m
        },
    }
}

/// Chooses a target when there is none: the nearest ball (the last of equally near
/// ones); with no ball left the run heads for the end position. Says whether a target
/// was already set, that is whether this frame drives towards it.
pub fn pick_target(
    target: &mut Option<Position>,
    state: &mut ProgramState,
    car: Position,
    balls: &Vec<Position>,
) -> (had_target: bool)
    requires
        *old(target) is None ==> forall|i: int| 0 <= i < balls@.len() ==> sq_dist(car, #[trigger] balls@[i])
            <= i32::MAX,
    ensures
        had_target == (*old(target) is Some),
        had_target ==> *final(target) == *old(target) && *final(state) == *old(state),
        !had_target ==> (*final(target) is None <==> balls@.len() == 0),
        !had_target ==> (*final(target) matches Some(b) ==> exists|i: int|
            is_last_nearest(car, balls@, i) && balls@[i] == b),
        !had_target ==> *final(state) == (if balls@.len() == 0 {
            ProgramState::EndGoToPos
        } else {
            *old(state)
        }),
{
    if target.is_some() {
        return true;
    }
    let t = find_nearest_ball(&car, balls);
    if t.is_none() {
        *state = ProgramState::EndGoToPos;
    }
    *target = t;
    false
}

/// Radius (px) within which the final approach aims straight at the ball.
pub const APPROACH_DISTANCE: i32 = 200;

/// Radius (px) within which the car counts as at the ball in the run phase.
pub const CLOSE_RADIUS: i32 = 100;

/// The ball lies strictly within `radius` of the car, by squared pixel distance.
pub fn within_radius(ball: Position, car: Position, radius: i32) -> (b: bool)
    requires
        sq_dist(ball, car) <= i32::MAX,
        0 <= radius <= 46340,
    ensures
        b == (sq_dist(ball, car) < radius * radius),
{
    let d = squared_distance(&ball, &car);
    assert(radius * radius <= 46340 * 46340) by (nonlinear_arith)
        requires
            0 <= radius <= 46340,
    ;
    d < radius * radius
}

/// The heading marker was seen: it is reported as the origin when it is missing.
pub fn heading_known(head: Position) -> (b: bool)
    ensures
        b == (head.x != 0 || head.y != 0),
{
    head.x != 0 || head.y != 0
}

pub open spec fn on_ball_spec(final_approach: bool, head: Position, within_tolerance: bool) -> bool {
    final_approach && (head.x != 0 || head.y != 0) && within_tolerance
}

/// The mouth is on the ball: in the final approach, with a known heading, and with the
/// ball within the forward and lateral tolerances (`within_tolerance`).
pub fn on_ball(final_approach: bool, head: Position, within_tolerance: bool) -> (b: bool)
    ensures
        b == on_ball_spec(final_approach, head, within_tolerance),
{
    final_approach && heading_known(head) && within_tolerance
}

/// Refreshes the cached bounds of the walls and the cross from this frame's obstacles:
/// they are replaced only when both clouds are present, so once seen the bounds are
/// never lost.
pub fn refresh_bounds(cache: &mut Option<ObstacleBounds>, obstacles: &Option<Obstacles>)
    ensures
        match *obstacles {
            Some(o) => if o.walls@.len() > 0 && o.cross@.len() > 0 {
                *final(cache) matches Some(b) && is_bounding_box(o.walls@, b.walls) && is_bounding_box(
                    o.cross@,
                    b.cross,
                )
            } else {
                *final(cache) == *old(cache)
            },
            None => *final(cache) == *old(cache),
        },
        *old(cache) is Some ==> *final(cache) is Some,
{
    if let Some(o) = obstacles {
        let w = bounds(o.walls.as_slice());
        let c = bounds(o.cross.as_slice());
        match (w, c) {
            (Some(walls), Some(cross)) => {
                *cache = Some(ObstacleBounds { walls, cross });
            },
            _ => {},
        }
    }
}

/// How the car closes in on its target this frame.
#[derive(Debug, Clone, Copy, PartialEq, Eq, Structural)]
pub struct Approach {
    /// At the target for the purpose of the phase.
    pub close_enough: bool,
    /// In the run phase and within the approach radius of the ball.
    pub final_approach: bool,
    /// The point to steer at.
    pub target_pos: Position,
}

pub open spec fn approach_spec(
    state: ProgramState,
    route_len: int,
    within_close: bool,
    within_approach: bool,
    ball: Position,
    next_pos: Position,
) -> Approach {
    let route_close = route_len < 1 || state == ProgramState::EndTurnAround;
    let close_enough = if state == ProgramState::Run {
        route_close && within_close
    } else {
        route_close
    };
    let final_approach = state == ProgramState::Run && within_approach;
    Approach {
        close_enough,
        final_approach,
        target_pos: if close_enough || final_approach {
            ball
        } else {
            next_pos
        },
    }
}

/// Plans the approach: the route counts as finished when no step is left or the car
/// only turns around; in the run phase that also needs the ball within the close
/// radius. Close to the target, or in the final approach, the car steers straight at
/// the ball; otherwise at the route's next point.
pub fn plan_approach(
    state: ProgramState,
    route_len: i32,
    within_close: bool,
    within_approach: bool,
    ball: Position,
    next_pos: Position,
) -> (a: Approach)
    ensures
        a == approach_spec(state, route_len as int, within_close, within_approach, ball, next_pos),
{
    let route_close = route_len < 1 || state == ProgramState::EndTurnAround;
    let close_enough = if state == ProgramState::Run {
        route_close && within_close
    } else {
        route_close
    };
    let final_approach = state == ProgramState::Run && within_approach;
    let target_pos = if close_enough || final_approach {
        ball
    } else {
        next_pos
    };
    Approach { close_enough, final_approach, target_pos }
}

/// Which way the heading is off from the wanted direction by more than the tolerance.
#[derive(Debug, Clone, Copy, PartialEq, Eq, Structural)]
pub enum Turn {
    Aligned,
    Left,
    Right,
}

/// What the drive does this frame.
#[derive(Debug, Clone, Copy, PartialEq, Eq, Structural)]
pub enum Motion {
    Idle,
    TurnRight,
    TurnLeft,
    /// Suck the ball in, back off, and look for the next target.
    Suck,
    /// Pause between two creeping pulses.
    CreepBrake,
    /// Creep forward towards the ball.
    Creep,
    /// Stop at the end position and go on to emptying.
    Halt,
    Backward,
    Forward,
}

pub open spec fn motion_spec(
    state: ProgramState,
    turn: Turn,
    act: bool,
    on_ball: bool,
    last_command: Option<Command>,
) -> Motion {
    if state == ProgramState::Config {
        Motion::Idle
    } else if turn == Turn::Right {
        Motion::TurnRight
    } else if turn == Turn::Left {
        Motion::TurnLeft
    } else if act {
        match state {
            ProgramState::Run => if on_ball {
                Motion::Suck
            } else if last_command == Some(Command::Forward) {
                Motion::CreepBrake
            } else {
                Motion::Creep
            },
            ProgramState::EndGoToPos => Motion::Halt,
            ProgramState::EndTurnAround => Motion::Halt,
            _ => Motion::Idle,
        }
    } else if state == ProgramState::EndGoToPos {
        Motion::Backward
    } else {
        Motion::Forward
    }
}

/// Chooses the drive's motion. Nothing moves while configuring; a heading off to one
/// side turns the car; when aligned and at the target (`act`), the run phase sucks a
/// ball it is on and otherwise creeps in pulses (forward, then a stop), and the end
/// phases halt; when aligned but not there, the car drives (backwards towards the end
/// position).
pub fn decide_motion(
    state: ProgramState,
    turn: Turn,
    act: bool,
    on_ball: bool,
    last_command: Option<Command>,
) -> (m: Motion)
    ensures
        m == motion_spec(state, turn, act, on_ball, last_command),
{
    if state == ProgramState::Config {
        return Motion::Idle;
    }
    match turn {
        Turn::Right => Motion::TurnRight,
        Turn::Left => Motion::TurnLeft,
        Turn::Aligned => {
            if act {
                match state {
                    ProgramState::Run => {
                        if on_ball {
                            Motion::Suck
                        } else {
                            let forward = match last_command {
                                Some(c) => c == Command::Forward,
                                None => false,
                            };
                            if forward {
                                Motion::CreepBrake
                            } else {
                                Motion::Creep
                            }
                        }
                    },
                    ProgramState::EndGoToPos => Motion::Halt,
                    ProgramState::EndTurnAround => Motion::Halt,
                    _ => Motion::Idle,
                }
            } else if state == ProgramState::EndGoToPos {
                Motion::Backward
            } else {
                Motion::Forward
            }
        },
    }
}

/// The command sequence of a motion. Halting is logged in the suction unit's log.
pub open spec fn motion_steps_spec(m: Motion) -> Seq<Step> {
    match m {
        Motion::Idle => seq![],
        Motion::TurnRight => seq![step(Link::Drive, Link::Drive, Command::Right, 0)],
        Motion::TurnLeft => seq![step(Link::Drive, Link::Drive, Command::Left, 0)],
        Motion::Suck => seq![
            step(Link::Suction, Link::Suction, Command::Start, 0),
            step(Link::Drive, Link::Drive, Command::Stop, 3000),
            step(Link::Drive, Link::Drive, Command::Backward, 1000),
            step(Link::Drive, Link::Drive, Command::Stop, 0),
        ],
        Motion::CreepBrake => seq![step(Link::Drive, Link::Drive, Command::Stop, 0)],
        Motion::Creep => seq![step(Link::Drive, Link::Drive, Command::Forward, 0)],
        Motion::Halt => seq![step(Link::Drive, Link::Suction, Command::Stop, 0)],
        Motion::Backward => seq![step(Link::Drive, Link::Drive, Command::Backward, 0)],
        Motion::Forward => seq![step(Link::Drive, Link::Drive, Command::Forward, 0)],
    }
}

/// Carries out the decisions of a motion: a halt leads on to emptying, a suck clears
/// the target. Returns the commands to send, in order.
pub fn apply_motion(m: Motion, state: &mut ProgramState, target: &mut Option<Position>) -> (v: Vec<Step>)
    ensures
        v@ == motion_steps_spec(m),
        *final(state) == (if m == Motion::Halt {
            ProgramState::EndOpen
        } else {
            *old(state)
        }),
        *final(target) == (if m == Motion::Suck {
            None
        } else {
            *old(target)
        }),
{
    let mut v: Vec<Step> = Vec::new();
    match m {
        Motion::Idle => {},
        Motion::TurnRight => {
            v.push(mk(Link::Drive, Link::Drive, Command::Right, 0));
        },
        Motion::TurnLeft => {
            v.push(mk(Link::Drive, Link::Drive, Command::Left, 0));
        },
        Motion::Suck => {
            v.push(mk(Link::Suction, Link::Suction, Command::Start, 0));
            v.push(mk(Link::Drive, Link::Drive, Command::Stop, 3000));
            v.push(mk(Link::Drive, Link::Drive, Command::Backward, 1000));
            v.push(mk(Link::Drive, Link::Drive, Command::Stop, 0));
            *target = None;
        },
        Motion::CreepBrake => {
            v.push(mk(Link::Drive, Link::Drive, Command::Stop, 0));
        },
        Motion::Creep => {
            v.push(mk(Link::Drive, Link::Drive, Command::Forward, 0));
        },
        Motion::Halt => {
            v.push(mk(Link::Drive, Link::Suction, Command::Stop, 0));
            *state = ProgramState::EndOpen;
        },
        Motion::Backward => {
            v.push(mk(Link::Drive, Link::Drive, Command::Backward, 0));
        },
        Motion::Forward => {
            v.push(mk(Link::Drive, Link::Drive, Command::Forward, 0));
        },
    }
    assert(v@ =~= motion_steps_spec(m));
    v
}

/// A command that was just written is not written again: offered twice in a row, it
/// goes out at most once.
pub proof fn law_send_once(connected: bool, cmd: Command, last: Option<Command>)
    ensures
        !sends(connected, cmd, log_after(connected, cmd, last)),
{
}

/// A car that never jumps more than 60 px between sightings is never held back: every
/// sighting is used as it is, as long as the first one is within 60 px of the remembered
/// position or nothing is remembered yet.
pub proof fn law_jitter_never_freezes(last: Position, cars: Seq<Position>)
    requires
        cars.len() > 0 ==> is_origin(last) || sq_dist(cars[0], last) <= JITTER_REJECT_SQ,
        forall|i: int| 0 <= i < cars.len() - 1 ==> sq_dist(#[trigger] cars[i + 1], cars[i]) <= JITTER_REJECT_SQ,
    ensures
        jitter_run(last, cars) == cars,
    decreases cars.len(),
{
    if cars.len() > 0 {
        let rest = cars.drop_first();
        assert forall|i: int| 0 <= i < rest.len() - 1 implies sq_dist(#[trigger] rest[i + 1], rest[i])
            <= JITTER_REJECT_SQ by {
            assert(rest[i + 1] == cars[i + 2] && rest[i] == cars[i + 1]);
        }
        if rest.len() > 0 {
            assert(rest[0] == cars[1]);
            assert(sq_dist(cars[0int + 1], cars[0int]) <= JITTER_REJECT_SQ);
        }
        law_jitter_never_freezes(cars[0], rest);
        assert(seq![cars[0]] + rest =~= cars);
    }
}

/// The remembered car position never moves by more than 60 px in one frame once a car
/// has been accepted.
pub proof fn law_jitter_bounded(car: Position, last: Position)
    requires
        !is_origin(last),
    ensures
        sq_dist(jitter_spec(car, last), last) <= JITTER_REJECT_SQ,
{
    assert(sq_dist(last, last) == 0);
}

/// Creeping in the run phase alternates: a forward pulse is followed by a stop and a
/// stop by a forward pulse, once the pulse's command has gone out on a live link.
pub proof fn law_creep_alternates(last: Option<Command>)
    ensures
        ({
            let m1 = motion_spec(ProgramState::Run, Turn::Aligned, true, false, last);
            let c1 = motion_steps_spec(m1)[0].command;
            let m2 = motion_spec(ProgramState::Run, Turn::Aligned, true, false, log_after(true, c1, last));
            &&& (m1 == Motion::Creep || m1 == Motion::CreepBrake)
            &&& (m2 == Motion::Creep || m2 == Motion::CreepBrake)
            &&& m1 != m2
        }),
{
}

/// A lost heading (reported as the origin) never makes the robot suck.
pub proof fn law_lost_heading_never_sucks(
    state: ProgramState,
    turn: Turn,
    act: bool,
    final_approach: bool,
    within_tolerance: bool,
    last: Option<Command>,
)
    ensures
        motion_spec(state, turn, act, on_ball_spec(final_approach, Position { x: 0, y: 0 }, within_tolerance), last)
            != Motion::Suck,
{
}

/// Only the run phase sucks, and only when the mouth is on the ball.
pub proof fn law_suck_only_on_ball(state: ProgramState, turn: Turn, act: bool, on_ball: bool, last: Option<Command>)
    ensures
        motion_spec(state, turn, act, on_ball, last) == Motion::Suck ==> state == ProgramState::Run && on_ball && act,
{
}

/// In the run phase a route that reports no steps left does not by itself make the car
/// steer straight at the ball: with the ball outside both radii it follows the route.
pub proof fn law_run_interlock(route_len: int, ball: Position, next_pos: Position)
    ensures
        ({
            let a = approach_spec(ProgramState::Run, route_len, false, false, ball, next_pos);
            !a.close_enough && !a.final_approach && a.target_pos == next_pos
        }),
{
}

/// Nothing moves while configuring.
pub proof fn law_config_is_idle(turn: Turn, act: bool, on_ball: bool, last: Option<Command>)
    ensures
        motion_spec(ProgramState::Config, turn, act, on_ball, last) == Motion::Idle,
        motion_steps_spec(Motion::Idle).len() == 0,
{
}

/// Aligned with the target but not yet at it, the car drives with one command on the
/// drive link: backwards while going to the end position, forwards in every other phase
/// but configuring.
pub proof fn law_aligned_car_drives(state: ProgramState, on_ball: bool, last: Option<Command>)
    requires
        state != ProgramState::Config,
    ensures
        motion_steps_spec(motion_spec(state, Turn::Aligned, false, on_ball, last)) == seq![
            step(
                Link::Drive,
                Link::Drive,
                if state == ProgramState::EndGoToPos {
                    Command::Backward
                } else {
                    Command::Forward
                },
                0,
            ),
        ],
{
}

/// Each motion drives the way its name says: driving and creeping forward send one
/// forward command, turning right and left one right and one left command, all on the
/// drive link; only sucking (which backs off) and driving backwards send a backward
/// command.
pub proof fn law_motion_directions(m: Motion)
    ensures
        (m == Motion::Forward || m == Motion::Creep) ==> motion_steps_spec(m) == seq![
            step(Link::Drive, Link::Drive, Command::Forward, 0),
        ],
        m == Motion::TurnRight ==> motion_steps_spec(m) == seq![step(Link::Drive, Link::Drive, Command::Right, 0)],
        m == Motion::TurnLeft ==> motion_steps_spec(m) == seq![step(Link::Drive, Link::Drive, Command::Left, 0)],
        forall|i: int|
            0 <= i < motion_steps_spec(m).len() && (#[trigger] motion_steps_spec(m)[i]).command == Command::Backward
                ==> m == Motion::Suck || m == Motion::Backward,
{
}

} // verus!
