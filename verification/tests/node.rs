use fuzzy_cmd::Node;
use std::sync::mpsc::channel;

#[test]
fn node_basics() {
    let mut n = Node::new();
    n.call(1);
    n.add("test").call(2);
}

#[test]
fn node_exec() {
    let (send, recv) = channel::<&str>();
    let mut n = Node::new();
    n.add("help").call(1);
    {
        let s = send.clone();
        let run = move |k: u64| match k {
            1 => s.send("Got some help!").unwrap(),
            _ => panic!("unknown action"),
        };
        run(n.exec(&[String::from("help")], false).unwrap());
    }
    assert_eq!(recv.recv(), Ok("Got some help!"));

    let (send, recv) = channel::<&str>();
    let mut n = Node::new();
    {
        let test = n.add("test");
        test.add("all").call(2);
        test.add("docs").call(3);
        test.add("nothing").call(4);
    }
    {
        let help = n.add("help");
        help.add("all").call(5);
        help.add("something").call(6);
    }
    let s = send.clone();
    let run = move |k: u64| match k {
        2 => s.send("test all").unwrap(),
        3 => s.send("test docs").unwrap(),
        4 => s.send("test nothing").unwrap(),
        5 => s.send("help all").unwrap(),
        6 => s.send("help something").unwrap(),
        _ => panic!("unknown action"),
    };

    run(n.exec(&[String::from("test"), String::from("all")], false).unwrap());
    run(n.exec(&[String::from("help"), String::from("all")], false).unwrap());
    run(n.exec(&[String::from("test"), String::from("nothing")], false).unwrap());

    run(n.exec(&[String::from("t"), String::from("a")], true).unwrap());
    run(n.exec(&[String::from("h"), String::from("a")], true).unwrap());
    run(n.exec(&[String::from("te"), String::from("not")], true).unwrap());

    assert_eq!(recv.recv(), Ok("test all"));
    assert_eq!(recv.recv(), Ok("help all"));
    assert_eq!(recv.recv(), Ok("test nothing"));
    assert_eq!(recv.recv(), Ok("test all"));
    assert_eq!(recv.recv(), Ok("help all"));
    assert_eq!(recv.recv(), Ok("test nothing"));
}

#[test]
fn unassigned_node_reports_error() {
    let n = Node::new();
    let r = n.exec(&[String::new()], false);
    assert!(r.is_err());
    assert_eq!(
        r.unwrap_err().message(),
        "no function to execute command ''"
    );
}

#[test]
fn exact_mode_rejects_prefixes() {
    let mut n = Node::new();
    {
        let test = n.add("test");
        test.add("all").call(2);
        test.add("docs").call(3);
        test.add("nothing").call(4);
    }
    {
        let help = n.add("help");
        help.add("all").call(5);
        help.add("something").call(6);
    }
    assert!(n.exec(&[String::from("te"), String::from("a")], false).is_err());
    assert!(n.exec(&[String::from("help"), String::from("some")], false).is_err());
}

#[test]
fn exact_match_routing() {
    let mut n = Node::new();
    n.add("test").call(1);
    n.add("help").call(2);
    assert_eq!(n.exec(&[String::from("test")], false).unwrap(), 1);
    assert_eq!(n.exec(&[String::from("help")], false).unwrap(), 2);
}

#[test]
fn exact_match_ignores_ascii_case() {
    let mut n = Node::new();
    n.add("Test").call(1);
    assert_eq!(n.exec(&[String::from("tEsT")], false).unwrap(), 1);
}

#[test]
fn fuzzy_prefix_routing() {
    let mut n = Node::new();
    n.add("test").call(1);
    n.add("help").call(2);
    assert_eq!(n.exec(&[String::from("t")], true).unwrap(), 1);
    assert_eq!(n.exec(&[String::from("h")], true).unwrap(), 2);
}

#[test]
fn fuzzy_prefix_is_case_sensitive() {
    let mut n = Node::new();
    n.add("Test").call(1);
    assert!(n.exec(&[String::from("t")], true).is_err());
    assert_eq!(n.exec(&[String::from("T")], true).unwrap(), 1);
}

#[test]
fn ambiguous_prefix_fails() {
    let mut n = Node::new();
    n.add("test").call(1);
    n.add("team").call(2);
    let r = n.exec(&[String::from("te")], true);
    assert_eq!(
        r.unwrap_err().message(),
        "no function to execute command 'te'"
    );
    assert_eq!(n.exec(&[String::from("tes")], true).unwrap(), 1);
}

#[test]
fn duplicate_labels_are_ambiguous_in_exact_mode() {
    let mut n = Node::new();
    n.add("dup").call(1);
    n.add("dup").call(2);
    assert!(n.exec(&[String::from("dup")], false).is_err());
}

#[test]
fn no_match_reports_remaining_tokens() {
    let mut n = Node::new();
    n.add("test").call(1);
    let r = n.exec(&[String::from("zzz"), String::from("x")], false);
    assert_eq!(
        r.unwrap_err().message(),
        "no function to execute command 'zzzx'"
    );
    let r = n.exec(&[String::from("zzz"), String::from("x")], true);
    assert_eq!(
        r.unwrap_err().message(),
        "no function to execute command 'zzzx'"
    );
}

#[test]
fn leaf_absorbs_excess_tokens() {
    let mut n = Node::new();
    n.add("help").call(1);
    let r = n.exec(
        &[String::from("help"), String::from("extra"), String::from("more")],
        false,
    );
    assert_eq!(r.unwrap(), 1);
}

#[test]
fn redispatch_gives_the_same_action() {
    let mut n = Node::new();
    n.add("help").call(1);
    assert_eq!(n.exec(&[String::from("help")], false).unwrap(), 1);
    assert_eq!(n.exec(&[String::from("help")], false).unwrap(), 1);
}

#[test]
fn add_discards_a_bound_action() {
    let mut n = Node::new();
    n.call(7);
    n.add("x");
    assert!(n.exec(&[], false).is_err());
    assert!(n.exec(&[String::from("x")], false).is_err());
}

#[test]
fn call_discards_children() {
    let mut n = Node::new();
    n.add("a").call(1);
    n.call(9);
    assert_eq!(n.exec(&[String::from("a")], false).unwrap(), 9);
    assert_eq!(n.exec(&[], false).unwrap(), 9);
}

#[test]
fn internal_node_with_no_tokens_left_reports_error() {
    let mut n = Node::new();
    n.add("a").call(1);
    let r = n.exec(&[], false);
    assert_eq!(r.unwrap_err().message(), "no function to execute command ''");
}
