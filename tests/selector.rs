use rngix::selector::{Action, Selection, Selector};

/// Runs a pass, answering each dial from `accepts`, and returns the ports
/// dialled and the final action.
fn run(destinations: Vec<u16>, accepts: &[u16]) -> (Vec<u16>, Action) {
    let mut selector = Selector::new(destinations);
    let mut dialled = Vec::new();
    loop {
        match selector.next_action() {
            Action::Dial(port) => {
                dialled.push(port);
                selector.report(accepts.contains(&port));
            }
            done => return (dialled, done),
        }
    }
}

#[test]
fn fallback_to_third_destination() {
    let (dialled, action) = run(vec![3000, 3001, 3002], &[3002]);
    assert_eq!(dialled, vec![3000, 3001, 3002]);
    assert_eq!(action, Action::Relay(3002));
}

#[test]
fn nothing_dialled_after_first_success() {
    let (dialled, action) = run(vec![3000, 3001, 3002, 3003], &[3001, 3002, 3003]);
    assert_eq!(dialled, vec![3000, 3001]);
    assert_eq!(action, Action::Relay(3001));
}

#[test]
fn first_reachable_destination_wins() {
    let (dialled, action) = run(vec![4000, 4001], &[4000, 4001]);
    assert_eq!(dialled, vec![4000]);
    assert_eq!(action, Action::Relay(4000));
}

#[test]
fn all_refusing_closes_inbound() {
    let (dialled, action) = run(vec![5000, 5001], &[]);
    assert_eq!(dialled, vec![5000, 5001]);
    assert_eq!(action, Action::Close);
}

#[test]
fn empty_destinations_close_at_once() {
    let selector = Selector::new(vec![]);
    assert_eq!(selector.state(), Selection::Exhausted);
    assert!(selector.is_finished());
    assert_eq!(selector.next_action(), Action::Close);
}

#[test]
fn states_follow_reports() {
    let mut selector = Selector::new(vec![10, 20, 30]);
    assert_eq!(selector.state(), Selection::Trying(0));
    assert!(!selector.is_finished());
    selector.report(false);
    assert_eq!(selector.state(), Selection::Trying(1));
    assert_eq!(selector.next_action(), Action::Dial(20));
    selector.report(true);
    assert_eq!(selector.state(), Selection::Connected(1));
    assert!(selector.is_finished());
    assert_eq!(selector.destinations(), &vec![10, 20, 30]);
}

#[test]
fn finished_pass_ignores_reports() {
    let mut selector = Selector::new(vec![7]);
    selector.report(true);
    selector.report(false);
    assert_eq!(selector.state(), Selection::Connected(0));
    assert_eq!(selector.next_action(), Action::Relay(7));

    let mut refused = Selector::new(vec![7]);
    refused.report(false);
    refused.report(true);
    assert_eq!(refused.state(), Selection::Exhausted);
    assert_eq!(refused.next_action(), Action::Close);
}

#[test]
fn duplicate_destination_is_dialled_twice() {
    let (dialled, action) = run(vec![6000, 6000, 6001], &[6001]);
    assert_eq!(dialled, vec![6000, 6000, 6001]);
    assert_eq!(action, Action::Relay(6001));
}
