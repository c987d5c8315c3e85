use rush::engine::{Action, Event, Run};
use rush::tokens::tokenize_commands;

fn spawn(program: &str, args: &[&str], background: bool) -> Action {
    Action::Spawn {
        program: String::from(program),
        args: args.iter().map(|a| String::from(*a)).collect(),
        background,
    }
}

fn run_of(line: &str) -> Run {
    Run::new(tokenize_commands(line))
}

#[test]
fn empty_line_succeeds_at_once() {
    let run = run_of("");
    assert_eq!(run.next_action(), Action::Finish(true));
    assert_eq!(run.outcome(), Some(true));
}

#[test]
fn commands_run_in_order() {
    let mut run = run_of("date ; ls -a");
    assert_eq!(run.outcome(), None);
    assert_eq!(run.next_action(), spawn("date", &[], false));
    run.record(Event::Exited(true));
    assert_eq!(run.next_action(), spawn("ls", &["-a"], false));
    run.record(Event::Exited(true));
    assert_eq!(run.next_action(), Action::Finish(true));
    assert_eq!(run.outcome(), Some(true));
}

#[test]
fn failure_stops_the_flat_list() {
    // the second command comes from another `;` part, and still never runs
    let mut run = run_of("false ; ls");
    assert_eq!(run.next_action(), spawn("false", &[], false));
    run.record(Event::Exited(false));
    assert_eq!(run.next_action(), Action::Finish(false));
    assert_eq!(run.outcome(), Some(false));
    run.record(Event::Exited(true));
    assert_eq!(run.next_action(), Action::Finish(false));
}

#[test]
fn not_found_fails_the_command() {
    let mut run = run_of("nosuchprogram && ls");
    run.record(Event::NotFound);
    assert_eq!(run.next_action(), Action::Finish(false));
}

#[test]
fn background_launch_counts_as_success() {
    let mut run = run_of("sleep 10 & false");
    assert_eq!(run.next_action(), spawn("sleep", &["10"], true));
    run.record(Event::Started);
    assert_eq!(run.next_action(), spawn("false", &[], false));
    run.record(Event::Exited(false));
    assert_eq!(run.next_action(), Action::Finish(false));
}

#[test]
fn fallback_chain_stops_at_first_success() {
    let mut run = run_of("a || b || c ; d");
    assert_eq!(run.next_action(), spawn("a", &[], false));
    run.record(Event::NotFound);
    assert_eq!(run.next_action(), spawn("b", &[], false));
    run.record(Event::Exited(true));
    assert_eq!(run.next_action(), spawn("d", &[], false));
    run.record(Event::Exited(true));
    assert_eq!(run.next_action(), Action::Finish(true));
}

#[test]
fn fallback_chain_all_failing_fails() {
    let mut run = run_of("a || b || c ; d");
    run.record(Event::Exited(false));
    assert_eq!(run.next_action(), spawn("b", &[], false));
    run.record(Event::NotFound);
    assert_eq!(run.next_action(), spawn("c", &[], false));
    run.record(Event::Exited(false));
    assert_eq!(run.next_action(), Action::Finish(false));
    assert_eq!(run.outcome(), Some(false));
}

#[test]
fn background_fallbacks_stay_in_background() {
    let mut run = run_of("a || b &");
    assert_eq!(run.next_action(), spawn("a", &[], true));
    run.record(Event::NotFound);
    assert_eq!(run.next_action(), spawn("b", &[], true));
    run.record(Event::Started);
    assert_eq!(run.next_action(), Action::Finish(true));
}

#[test]
fn failed_cd_fails_without_fallback() {
    let mut run = run_of("cd /no/such/dir || ls ; pwd");
    assert_eq!(
        run.next_action(),
        Action::ChangeDir(String::from("/no/such/dir"))
    );
    run.record(Event::DirChanged(false));
    assert_eq!(run.next_action(), Action::Finish(false));
}

#[test]
fn cd_then_next_command() {
    let mut run = run_of("cd /tmp && ls");
    assert_eq!(run.next_action(), Action::ChangeDir(String::from("/tmp")));
    run.record(Event::DirChanged(true));
    assert_eq!(run.next_action(), spawn("ls", &[], false));
}

#[test]
fn cd_without_argument_goes_to_empty_path() {
    let run = run_of("cd");
    assert_eq!(run.next_action(), Action::ChangeDir(String::new()));
}

#[test]
fn cd_as_fallback_is_a_builtin() {
    let mut run = run_of("false || cd /tmp");
    run.record(Event::Exited(false));
    assert_eq!(run.next_action(), Action::ChangeDir(String::from("/tmp")));
}
