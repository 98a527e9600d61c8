use track_analyzer::control::{
    apply_motion, clamp_jitter, decide_motion, frame_script, handle_key, heading_known, key_in_range, need_rebuild, on_ball,
    pick_target, plan_approach, refresh_bounds, script_steps, send_command, startup_steps, within_radius, Command,
    KeyEffect, Link, Motion, ProgramState, Script, Step, Turn, APPROACH_DISTANCE, CLOSE_RADIUS,
};
use track_analyzer::geometry::Position;
use track_analyzer::path::Obstacles;

fn p(x: i32, y: i32) -> Position {
    Position { x, y }
}

#[test]
fn commands_are_not_repeated() {
    let mut log = None;
    assert!(send_command(true, Command::Forward, &mut log));
    assert_eq!(log, Some(Command::Forward));
    assert!(!send_command(true, Command::Forward, &mut log));
    assert!(send_command(true, Command::Stop, &mut log));
    assert!(send_command(true, Command::Forward, &mut log));
    assert_eq!(log, Some(Command::Forward));
}

#[test]
fn nothing_is_sent_without_a_link() {
    let mut log = Some(Command::Stop);
    assert!(!send_command(false, Command::Forward, &mut log));
    assert_eq!(log, Some(Command::Stop));
}

#[test]
fn startup_arms_and_closes() {
    let v = startup_steps();
    assert_eq!(
        v,
        vec![
            Step { link: Link::Suction, log: Link::Suction, command: Command::Arm, pause_ms: 0 },
            Step { link: Link::Drive, log: Link::Suction, command: Command::Close, pause_ms: 0 },
        ]
    );
}

#[test]
fn keys_move_the_end_position_and_switch_phases() {
    let mut pos = p(100, 100);
    let mut st = ProgramState::Config;
    assert_eq!(handle_key(119, &mut pos, &mut st, 640, 480), KeyEffect::Nothing);
    assert_eq!(pos, p(100, 95));
    handle_key(97, &mut pos, &mut st, 640, 480);
    assert_eq!(pos, p(95, 95));
    handle_key(100, &mut pos, &mut st, 640, 480);
    handle_key(115, &mut pos, &mut st, 640, 480);
    assert_eq!(pos, p(100, 100));
    handle_key(49, &mut pos, &mut st, 641, 481);
    assert_eq!(pos, p(320, 240));
    assert_eq!(handle_key(112, &mut pos, &mut st, 640, 480), KeyEffect::Arm);
    assert_eq!(st, ProgramState::Config);
    assert_eq!(handle_key(50, &mut pos, &mut st, 640, 480), KeyEffect::SaveEndPos);
    assert_eq!(st, ProgramState::Run);
    handle_key(51, &mut pos, &mut st, 640, 480);
    assert_eq!(st, ProgramState::EndGoToPos);
    handle_key(52, &mut pos, &mut st, 640, 480);
    assert_eq!(st, ProgramState::EndTurnAround);
    handle_key(53, &mut pos, &mut st, 640, 480);
    assert_eq!(st, ProgramState::EndOpen);
    handle_key(54, &mut pos, &mut st, 640, 480);
    assert_eq!(st, ProgramState::EndShakeItOut);
    handle_key(55, &mut pos, &mut st, 640, 480);
    assert_eq!(st, ProgramState::End);
    assert_eq!(handle_key(-1, &mut pos, &mut st, 640, 480), KeyEffect::Nothing);
    assert_eq!(st, ProgramState::End);
    assert_eq!(pos, p(320, 240));
}

#[test]
fn end_phases_run_their_scripts() {
    let end = p(5, 6);
    let mut target = None;
    let mut st = ProgramState::EndGoToPos;
    assert_eq!(frame_script(&mut st, end, &mut target), Script::Drive);
    assert_eq!(target, Some(end));
    assert_eq!(st, ProgramState::EndGoToPos);

    let mut st = ProgramState::EndOpen;
    let mut target = None;
    assert_eq!(frame_script(&mut st, end, &mut target), Script::Open);
    assert_eq!(st, ProgramState::EndShakeItOut);
    assert_eq!(target, None);
    assert_eq!(frame_script(&mut st, end, &mut target), Script::ShakeOut);
    assert_eq!(st, ProgramState::End);
    assert_eq!(frame_script(&mut st, end, &mut target), Script::Finish);

    let mut st = ProgramState::Run;
    assert_eq!(frame_script(&mut st, end, &mut target), Script::Drive);
    assert_eq!(st, ProgramState::Run);

    let open = script_steps(Script::Open);
    let cmds: Vec<Command> = open.iter().map(|s| s.command).collect();
    assert_eq!(cmds, vec![Command::Start, Command::Pick, Command::Stop, Command::Stop]);
    assert_eq!(open[0].pause_ms, 5000);
    assert_eq!(open[0].link, Link::Suction);
    assert_eq!(open[3].link, Link::Suction);
    let shake = script_steps(Script::ShakeOut);
    let cmds: Vec<Command> = shake.iter().map(|s| s.command).collect();
    assert_eq!(cmds, vec![Command::Forward, Command::Backward, Command::Stop]);
    assert!(script_steps(Script::Drive).is_empty());
    assert!(script_steps(Script::Finish).is_empty());
}

#[test]
fn jitter_clamp() {
    let mut last = p(0, 0);
    // first sighting is taken as it is
    assert_eq!(clamp_jitter(p(500, 500), &mut last), p(500, 500));
    assert_eq!(last, p(500, 500));
    // a 60 px move is accepted
    assert_eq!(clamp_jitter(p(560, 500), &mut last), p(560, 500));
    assert_eq!(last, p(560, 500));
    // a jump of more than 60 px is rejected and the position kept
    assert_eq!(clamp_jitter(p(600, 545), &mut last), p(560, 500));
    assert_eq!(last, p(560, 500));
    // in every direction
    assert_eq!(clamp_jitter(p(480, 500), &mut last), p(560, 500));
    assert_eq!(clamp_jitter(p(520, 470), &mut last), p(520, 470));
}

#[test]
fn steady_driving_is_never_frozen() {
    let mut last = p(0, 0);
    let mut x = 100;
    for _ in 0..50 {
        x += 59;
        assert_eq!(clamp_jitter(p(x, 200), &mut last), p(x, 200));
    }
}

#[test]
fn corner_moves() {
    let a = [p(0, 0), p(100, 0), p(0, 100), p(100, 100)];
    assert!(need_rebuild(&None, &a));
    let same = Some(a);
    assert!(!need_rebuild(&same, &a));
    let small = [p(18, 24), p(100, 0), p(0, 100), p(100, 100)];
    assert!(!need_rebuild(&same, &small));
    let big = [p(0, 0), p(100, 0), p(0, 100), p(121, 122)];
    assert!(need_rebuild(&same, &big));
}

#[test]
fn target_selection() {
    let mut target = None;
    let mut st = ProgramState::Run;
    let balls = vec![p(10, 10), p(3, 4), p(50, 50)];
    assert!(!pick_target(&mut target, &mut st, p(0, 0), &balls));
    assert_eq!(target, Some(p(3, 4)));
    assert_eq!(st, ProgramState::Run);
    // a set target is kept
    assert!(pick_target(&mut target, &mut st, p(0, 0), &vec![p(1, 1)]));
    assert_eq!(target, Some(p(3, 4)));
    // no ball left: head for the end position
    let mut target = None;
    assert!(!pick_target(&mut target, &mut st, p(0, 0), &vec![]));
    assert_eq!(target, None);
    assert_eq!(st, ProgramState::EndGoToPos);
}

#[test]
fn radii_and_heading() {
    assert!(within_radius(p(99, 0), p(0, 0), CLOSE_RADIUS));
    assert!(!within_radius(p(100, 0), p(0, 0), CLOSE_RADIUS));
    assert!(within_radius(p(120, 150), p(0, 0), APPROACH_DISTANCE));
    assert!(!within_radius(p(120, 160), p(0, 0), APPROACH_DISTANCE));
    assert!(!heading_known(p(0, 0)));
    assert!(heading_known(p(0, 1)));
    assert!(on_ball(true, p(3, 0), true));
    assert!(!on_ball(true, p(0, 0), true));
    assert!(!on_ball(false, p(3, 0), true));
    assert!(!on_ball(true, p(3, 0), false));
}

#[test]
fn bounds_cache() {
    let mut cache = None;
    refresh_bounds(&mut cache, &None);
    assert!(cache.is_none());
    let only_walls = Some(Obstacles { walls: vec![p(0, 0), p(10, 20)], cross: vec![] });
    refresh_bounds(&mut cache, &only_walls);
    assert!(cache.is_none());
    let both = Some(Obstacles { walls: vec![p(0, 0), p(10, 20)], cross: vec![p(4, 5), p(6, 3)] });
    refresh_bounds(&mut cache, &both);
    let b = cache.unwrap();
    assert_eq!((b.walls.min_x, b.walls.max_x, b.walls.min_y, b.walls.max_y), (0, 10, 0, 20));
    assert_eq!((b.cross.min_x, b.cross.max_x, b.cross.min_y, b.cross.max_y), (4, 6, 3, 5));
    // a frame without obstacles keeps the cache
    refresh_bounds(&mut cache, &None);
    assert!(cache.is_some());
    refresh_bounds(&mut cache, &only_walls);
    assert_eq!(cache.unwrap().cross.min_x, 4);
}

#[test]
fn approach_planning() {
    let ball = p(10, 10);
    let next = p(50, 50);
    // run phase: an empty route only counts with the ball close
    let a = plan_approach(ProgramState::Run, 0, false, false, ball, next);
    assert!(!a.close_enough && !a.final_approach);
    assert_eq!(a.target_pos, next);
    let a = plan_approach(ProgramState::Run, 0, true, true, ball, next);
    assert!(a.close_enough && a.final_approach);
    assert_eq!(a.target_pos, ball);
    let a = plan_approach(ProgramState::Run, 3, false, true, ball, next);
    assert!(!a.close_enough && a.final_approach);
    assert_eq!(a.target_pos, ball);
    // end phases: the route alone decides; turning around is always close
    let a = plan_approach(ProgramState::EndGoToPos, 0, false, false, ball, next);
    assert!(a.close_enough && !a.final_approach);
    let a = plan_approach(ProgramState::EndGoToPos, 2, true, true, ball, next);
    assert!(!a.close_enough && !a.final_approach);
    assert_eq!(a.target_pos, next);
    let a = plan_approach(ProgramState::EndTurnAround, 9, false, false, ball, next);
    assert!(a.close_enough);
    assert_eq!(a.target_pos, ball);
}

#[test]
fn motion_decisions() {
    assert_eq!(decide_motion(ProgramState::Config, Turn::Right, true, true, None), Motion::Idle);
    assert_eq!(decide_motion(ProgramState::Run, Turn::Right, true, true, None), Motion::TurnRight);
    assert_eq!(decide_motion(ProgramState::EndGoToPos, Turn::Left, false, false, None), Motion::TurnLeft);
    assert_eq!(decide_motion(ProgramState::Run, Turn::Aligned, true, true, None), Motion::Suck);
    assert_eq!(decide_motion(ProgramState::Run, Turn::Aligned, true, false, Some(Command::Forward)), Motion::CreepBrake);
    assert_eq!(decide_motion(ProgramState::Run, Turn::Aligned, true, false, Some(Command::Stop)), Motion::Creep);
    assert_eq!(decide_motion(ProgramState::Run, Turn::Aligned, true, false, None), Motion::Creep);
    assert_eq!(decide_motion(ProgramState::EndGoToPos, Turn::Aligned, true, false, None), Motion::Halt);
    assert_eq!(decide_motion(ProgramState::EndTurnAround, Turn::Aligned, true, false, None), Motion::Halt);
    assert_eq!(decide_motion(ProgramState::EndGoToPos, Turn::Aligned, false, false, None), Motion::Backward);
    assert_eq!(decide_motion(ProgramState::Run, Turn::Aligned, false, true, None), Motion::Forward);
    assert_eq!(decide_motion(ProgramState::EndTurnAround, Turn::Aligned, false, false, None), Motion::Forward);
}

#[test]
fn creeping_alternates_through_the_log() {
    let mut log = None;
    let mut seen = Vec::new();
    for _ in 0..4 {
        let m = decide_motion(ProgramState::Run, Turn::Aligned, true, false, log);
        seen.push(m);
        let mut st = ProgramState::Run;
        let mut target = Some(p(1, 1));
        for s in apply_motion(m, &mut st, &mut target) {
            send_command(true, s.command, &mut log);
        }
    }
    assert_eq!(seen, vec![Motion::Creep, Motion::CreepBrake, Motion::Creep, Motion::CreepBrake]);
}

#[test]
fn motion_effects() {
    let mut st = ProgramState::Run;
    let mut target = Some(p(1, 1));
    let v = apply_motion(Motion::Suck, &mut st, &mut target);
    assert_eq!(target, None);
    assert_eq!(st, ProgramState::Run);
    let cmds: Vec<Command> = v.iter().map(|s| s.command).collect();
    assert_eq!(cmds, vec![Command::Start, Command::Stop, Command::Backward, Command::Stop]);
    assert_eq!(v[1].pause_ms, 3000);
    assert_eq!(v[2].pause_ms, 1000);

    let mut st = ProgramState::EndGoToPos;
    let mut target = Some(p(1, 1));
    let v = apply_motion(Motion::Halt, &mut st, &mut target);
    assert_eq!(st, ProgramState::EndOpen);
    assert_eq!(target, Some(p(1, 1)));
    assert_eq!(v, vec![Step { link: Link::Drive, log: Link::Suction, command: Command::Stop, pause_ms: 0 }]);

    let v = apply_motion(Motion::Idle, &mut st, &mut target);
    assert!(v.is_empty());
    let v = apply_motion(Motion::TurnLeft, &mut st, &mut target);
    assert_eq!(v[0].command, Command::Left);
    let v = apply_motion(Motion::TurnRight, &mut st, &mut target);
    assert_eq!(v[0].command, Command::Right);
    let v = apply_motion(Motion::Backward, &mut st, &mut target);
    assert_eq!(v[0].command, Command::Backward);
}

#[test]
fn key_range_check() {
    assert!(key_in_range(119, p(0, 0)));
    assert!(!key_in_range(119, p(0, i32::MIN + 4)));
    assert!(key_in_range(119, p(0, i32::MIN + 5)));
    assert!(!key_in_range(100, p(i32::MAX - 4, 0)));
    assert!(key_in_range(55, p(i32::MAX, i32::MIN)));
}

#[test]
fn a_lost_heading_never_sucks() {
    let lost = p(0, 0);
    let on = on_ball(true, lost, true);
    assert!(!on);
    assert_ne!(decide_motion(ProgramState::Run, Turn::Aligned, true, on, None), Motion::Suck);
    let seen = on_ball(true, p(4, 2), true);
    assert_eq!(decide_motion(ProgramState::Run, Turn::Aligned, true, seen, None), Motion::Suck);
}

#[test]
fn centring_halves_toward_zero() {
    let mut pos = p(0, 0);
    let mut st = ProgramState::Config;
    handle_key(49, &mut pos, &mut st, -3, -5);
    assert_eq!(pos, p(-1, -2));
    handle_key(49, &mut pos, &mut st, i32::MIN, 7);
    assert_eq!(pos, p(-1073741824, 3));
}
