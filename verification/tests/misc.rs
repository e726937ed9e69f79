use commit_notifier::chat::commit_check_compute;
use commit_notifier::chat::settings::modify_subscriber_set;
use commit_notifier::repo::valid_repo_name;
use commit_notifier::chat::results::CommitCheckResult;
use commit_notifier::chat::settings::{NotifySettings, Subscriber, SubscriberCompat};
use commit_notifier::condition::{
    Action, Condition, GeneralCondition, InBranchCondition, SuppressFromToCondition,
};
use commit_notifier::error::Error;
use commit_notifier::github::GitHubInfo;
use commit_notifier::message::short_commit;
use regex::Regex;

fn owned(v: &[&str]) -> Vec<String> {
    v.iter().map(|s| (*s).to_owned()).collect()
}

#[test]
fn github_info_parse() {
    let g = GitHubInfo::parse("octo/repo").unwrap();
    assert_eq!(g.owner, "octo");
    assert_eq!(g.repo, "repo");
    assert!(GitHubInfo::parse("no-slash").is_err());
    assert!(GitHubInfo::parse("a/b/c").is_err());
    let h = GitHubInfo::new("o".to_owned(), "r".to_owned());
    assert_eq!(h.owner, "o");
    assert_eq!(h.repo, "r");
}

#[test]
fn short_commit_truncates() {
    assert_eq!(short_commit("0123456789abcdef"), "0123456789a");
    assert_eq!(short_commit("abc"), "abc");
    assert_eq!(short_commit(""), "");
}

#[test]
fn action_is_none() {
    assert!(Action::Nothing.is_none());
    assert!(!Action::Remove.is_none());
    assert!(!Action::SuppressNotification.is_none());
}

#[test]
fn in_branch_condition_checks_all_branches() {
    let cond = InBranchCondition {
        branch_regex: Regex::new("^release/.*$").unwrap(),
    };
    let hit = CommitCheckResult {
        all: owned(&["main", "release/1.0"]),
        new: owned(&["release/1.0"]),
        conditions: vec![],
    };
    assert_eq!(cond.check(&hit), Action::Remove);
    let miss = CommitCheckResult {
        all: owned(&["main", "dev"]),
        new: owned(&[]),
        conditions: vec![],
    };
    assert_eq!(cond.check(&miss), Action::Nothing);
}

#[test]
fn suppress_from_to_condition() {
    let cond = SuppressFromToCondition {
        from_regex: Regex::new("^dev$").unwrap(),
        to_regex: Regex::new("^main$").unwrap(),
    };
    // already in dev, newly entered main: suppressed
    let r1 = CommitCheckResult {
        all: owned(&["dev", "main"]),
        new: owned(&["main"]),
        conditions: vec![],
    };
    assert_eq!(cond.check(&r1), Action::SuppressNotification);
    // dev itself is new, so nothing was there before: not suppressed
    let r2 = CommitCheckResult {
        all: owned(&["dev", "main"]),
        new: owned(&["dev", "main"]),
        conditions: vec![],
    };
    assert_eq!(cond.check(&r2), Action::Nothing);
    let general = GeneralCondition::SuppressFromTo(cond);
    assert_eq!(general.check(&r1), Action::SuppressNotification);
}

#[test]
fn conditions_of_action_filters() {
    let r = CommitCheckResult {
        all: owned(&[]),
        new: owned(&[]),
        conditions: vec![
            ("keep".to_owned(), Action::Nothing),
            ("drop".to_owned(), Action::Remove),
            ("hush".to_owned(), Action::SuppressNotification),
            ("drop2".to_owned(), Action::Remove),
        ],
    };
    assert_eq!(
        r.conditions_of_action(Action::Remove),
        owned(&["drop", "drop2"])
    );
    assert_eq!(
        r.conditions_of_action(Action::SuppressNotification),
        owned(&["hush"])
    );
}

#[test]
fn subscribers_markdown_lines() {
    let none = NotifySettings {
        comment: String::new(),
        subscribers: vec![],
    };
    assert_eq!(none.subscribers_markdown(), "");
    let two = NotifySettings {
        comment: String::new(),
        subscribers: vec![
            Subscriber::Telegram {
                markdown_mention: "@alice".to_owned(),
            },
            Subscriber::Telegram {
                markdown_mention: "@bob".to_owned(),
            },
        ],
    };
    assert_eq!(two.subscribers_markdown(), "*subscribers*: @alice @bob");
    assert_eq!(two.subscribers[0].markdown(), "@alice");
}

#[test]
fn subscriber_from_compat() {
    let direct = Subscriber::from_compat(SubscriberCompat::Telegram {
        markdown_mention: Some("[a](tg://user?id=1)".to_owned()),
        username: None,
    })
    .unwrap();
    assert_eq!(direct.markdown(), "[a](tg://user?id=1)");
    let named = Subscriber::from_compat(SubscriberCompat::Telegram {
        markdown_mention: None,
        username: Some("carol".to_owned()),
    })
    .unwrap();
    assert_eq!(named.markdown(), "@carol");
    let bad = Subscriber::from_compat(SubscriberCompat::Telegram {
        markdown_mention: None,
        username: None,
    })
    .unwrap_err();
    assert!(matches!(bad, Error::InvalidSubscriber(_)));
}

#[test]
fn commit_check_compute_diffs_and_evaluates() {
    let conditions = vec![
        (
            "clean".to_owned(),
            GeneralCondition::InBranch(InBranchCondition {
                branch_regex: Regex::new("^release/.*$").unwrap(),
            }),
        ),
        (
            "quiet".to_owned(),
            GeneralCondition::InBranch(InBranchCondition {
                branch_regex: Regex::new("^nowhere$").unwrap(),
            }),
        ),
    ];
    let r = commit_check_compute(
        owned(&["dev", "main", "release/2.0"]),
        &owned(&["dev"]),
        &conditions,
    );
    assert_eq!(r.all, owned(&["dev", "main", "release/2.0"]));
    let mut new = r.new.clone();
    new.sort();
    assert_eq!(new, owned(&["main", "release/2.0"]));
    assert_eq!(r.conditions.len(), 1);
    assert_eq!(r.conditions[0].0, "clean");
    assert_eq!(r.conditions[0].1, Action::Remove);
    assert_eq!(r.conditions_of_action(Action::Remove), owned(&["clean"]));
}

#[test]
fn valid_repo_name_accepts_the_name_alphabet() {
    assert!(valid_repo_name("my-repo_01"));
    assert!(valid_repo_name(""));
    assert!(!valid_repo_name("a/b"));
    assert!(!valid_repo_name("space here"));
    assert!(!valid_repo_name("dot.git"));
}

#[test]
fn modify_subscriber_set_four_cases() {
    let alice = Subscriber::Telegram {
        markdown_mention: "@alice".to_owned(),
    };
    let bob = Subscriber::Telegram {
        markdown_mention: "@bob".to_owned(),
    };
    let mut set: Vec<Subscriber> = vec![];
    // unsubscribing from an empty set fails
    let err = modify_subscriber_set(&mut set, alice.clone(), true).unwrap_err();
    assert!(matches!(err, Error::NotSubscribed));
    // first subscribe succeeds, second is rejected
    modify_subscriber_set(&mut set, alice.clone(), false).unwrap();
    let err = modify_subscriber_set(&mut set, alice.clone(), false).unwrap_err();
    assert!(matches!(err, Error::AlreadySubscribed));
    modify_subscriber_set(&mut set, bob.clone(), false).unwrap();
    assert_eq!(set.len(), 2);
    // unsubscribe removes exactly the matching subscriber
    modify_subscriber_set(&mut set, alice, true).unwrap();
    assert_eq!(set.len(), 1);
    assert_eq!(set[0].markdown(), "@bob");
}
