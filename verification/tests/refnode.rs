use fuzzy_cmd::fuzzy_cmd::refnode::node::Node;
use std::sync::mpsc::channel;

#[test]
fn refnode_basics() {
    let mut n = Node::new();
    n.call(1);
    n.add("test").call(2);
}

#[test]
fn refnode_exec() {
    let (send, recv) = channel::<&str>();
    let mut n = Node::new();
    n.add("help").call(1);
    {
        let s = send.clone();
        let run = move |k: u64| match k {
            1 => s.send("Got some help!").unwrap(),
            _ => panic!("unknown action"),
        };
        run(n.exec(&[String::from("help")], false).unwrap());
    }
    assert_eq!(recv.recv(), Ok("Got some help!"));

    let (send, recv) = channel::<&str>();
    let mut n = Node::new();
    {
        let test = n.add("test");
        test.node.add("all").call(2);
        test.node.add("docs").call(3);
        test.node.add("nothing").call(4);
    }
    {
        let help = n.add("help");
        help.node.add("all").call(5);
        help.node.add("something").call(6);
    }
    let s = send.clone();
    let run = move |k: u64| match k {
        2 => s.send("test all").unwrap(),
        3 => s.send("test docs").unwrap(),
        4 => s.send("test nothing").unwrap(),
        5 => s.send("help all").unwrap(),
        6 => s.send("help something").unwrap(),
        _ => panic!("unknown action"),
    };

    run(n.exec(&[String::from("test"), String::from("all")], false).unwrap());
    run(n.exec(&[String::from("help"), String::from("all")], false).unwrap());
    run(n.exec(&[String::from("test"), String::from("nothing")], false).unwrap());

    run(n.exec(&[String::from("t"), String::from("a")], true).unwrap());
    run(n.exec(&[String::from("h"), String::from("a")], true).unwrap());
    run(n.exec(&[String::from("te"), String::from("not")], true).unwrap());

    assert_eq!(recv.recv(), Ok("test all"));
    assert_eq!(recv.recv(), Ok("help all"));
    assert_eq!(recv.recv(), Ok("test nothing"));
    assert_eq!(recv.recv(), Ok("test all"));
    assert_eq!(recv.recv(), Ok("help all"));
    assert_eq!(recv.recv(), Ok("test nothing"));
}

#[test]
fn refnode_unassigned_reports_error() {
    let n = Node::new();
    let r = n.exec(&[String::new()], false);
    assert!(r.is_err());
}

#[test]
fn refnode_exact_mode_rejects_prefixes() {
    let mut n = Node::new();
    {
        let test = n.add("test");
        test.node.add("all").call(2);
        test.node.add("docs").call(3);
        test.node.add("nothing").call(4);
    }
    {
        let help = n.add("help");
        help.node.add("all").call(5);
        help.node.add("something").call(6);
    }
    assert!(n.exec(&[String::from("te"), String::from("a")], false).is_err());
    assert!(n.exec(&[String::from("help"), String::from("some")], false).is_err());
}

#[test]
fn refnode_add_discards_a_bound_action() {
    let mut n = Node::new();
    n.call(9);
    n.add("x").call(1);
    // The action bound before `add` is gone: with no tokens left the walk
    // fails, and with a token it reaches the new subnode, never 9.
    assert!(n.exec(&[], false).is_err());
    assert_eq!(n.exec(&[String::from("x")], false).unwrap(), 1);
}

#[test]
fn refnode_call_discards_children() {
    let mut n = Node::new();
    n.add("a").call(1);
    n.call(9);
    assert_eq!(n.exec(&[String::from("a")], false).unwrap(), 9);
    assert_eq!(n.exec(&[], false).unwrap(), 9);
}

#[test]
fn refnode_leaf_absorbs_excess_tokens() {
    let mut n = Node::new();
    n.add("help").call(1);
    let r = n.exec(
        &[String::from("help"), String::from("extra"), String::from("more")],
        false,
    );
    assert_eq!(r.unwrap(), 1);
}
