use ycm::Config;
use ycm::links::LinkOp;
use ycm::sync::PullAction;
use ycm::sync::pull_action;
use ycm::sync::push_setup;

fn bv(s: &str) -> Vec<u8> {
    s.as_bytes().to_vec()
}

#[test]
fn link_plan_captures_removes_then_links() {
    let c = Config::new(bv("/store/shell/.bashrc"), bv("/home/u/.bashrc"));
    let ops = c.link_ops(false);
    assert_eq!(ops.len(), 3);
    match &ops[0] {
        LinkOp::CopyFile { from, to } => {
            assert_eq!(from, &bv("/home/u/.bashrc"));
            assert_eq!(to, &bv("/store/shell/.bashrc"));
        }
        _ => panic!("first step must capture the target"),
    }
    match &ops[1] {
        LinkOp::RemoveFile { path } => assert_eq!(path, &bv("/home/u/.bashrc")),
        _ => panic!("second step must remove the target"),
    }
    match &ops[2] {
        LinkOp::HardLink { original, link } => {
            assert_eq!(original, &bv("/store/shell/.bashrc"));
            assert_eq!(link, &bv("/home/u/.bashrc"));
        }
        _ => panic!("third step must re-create the target as a hard link"),
    }
}

#[test]
fn already_linked_pair_needs_no_step() {
    let c = Config::new(bv("/store/shell/.bashrc"), bv("/home/u/.bashrc"));
    assert!(c.link_ops(true).is_empty());
}

#[test]
fn pull_requires_repository_then_remote() {
    assert_eq!(pull_action(false, false), PullAction::SkipNotRepo);
    assert_eq!(pull_action(false, true), PullAction::SkipNotRepo);
    assert_eq!(pull_action(true, false), PullAction::SkipNoRemote);
    assert_eq!(pull_action(true, true), PullAction::Pull);
}

#[test]
fn push_sets_up_what_is_missing() {
    assert_eq!(push_setup(false, false), (true, true));
    assert_eq!(push_setup(true, false), (false, true));
    assert_eq!(push_setup(false, true), (true, false));
    assert_eq!(push_setup(true, true), (false, false));
}
