//! The command line of the control tool.

use lorica::ctl::{command, printed, usage, Request, COMMANDS};

fn asked(args: &[&str]) -> Request {
    let args: Vec<String> = args.iter().map(|arg| arg.to_string()).collect();
    command(&args)
}

#[test]
fn a_command_is_sent_as_it_is() {
    for word in COMMANDS {
        if word != "attach" {
            assert!(matches!(asked(&[word]), Request::Send(line) if line == word));
        }
    }
    assert!(matches!(asked(&["status", "more"]), Request::Send(line) if line == "status"));
}

#[test]
fn an_attach_is_sent_with_its_interface() {
    assert!(matches!(asked(&["attach", "eth0"]), Request::Send(line) if line == "attach eth0"));
    assert!(matches!(asked(&["attach"]), Request::NeedsOperand));
}

#[test]
fn anything_else_is_answered_with_the_usage() {
    assert!(matches!(asked(&[]), Request::Usage));
    assert!(matches!(asked(&["stat"]), Request::Usage));
    assert_eq!(
        usage(),
        "usage: lorica-ctl status|tiers|rules|arm|disarm|reload|attach|detach"
    );
}

#[test]
fn an_answer_is_printed_without_what_trails_it() {
    assert_eq!(printed("ok \n\n"), "ok");
    assert_eq!(printed("  ok"), "  ok");
    assert_eq!(printed("\u{3000}"), "");
}
