use npd::eval::EvalAborted;
use npd::live::Tree;
use npd::shards::{AfterAbort, Failure, Next, Scheduler};

fn strings(v: &[&str]) -> Vec<String> {
    v.iter().map(|x| x.to_string()).collect()
}

fn killed() -> EvalAborted {
    EvalAborted { status: "killed".into(), streamed: 3, stderr_tail: "out of memory".into() }
}

fn begin(tree: &mut Tree, items: &[Vec<String>], size: usize, slots: usize) -> Scheduler<u32> {
    let mut nodes = Vec::new();
    let mut labels = Vec::new();
    for g in 0..items.len() {
        nodes.push(tree.counter("HEAD", 0, -1));
        labels.push(format!("group {g}"));
    }
    Scheduler::new(tree, "evaluate", &nodes, labels, items, size, slots, false)
}

#[test]
fn shards_make_up_their_group() {
    let mut tree = Tree::new(0, false, false);
    let mut run = begin(&mut tree, &[strings(&["a", "b", "c"])], 2, 1);
    assert_eq!(run.slots(), 1);
    assert_eq!(run.next(&mut tree, 0), Next::Run);
    assert_eq!(run.shard(0).unwrap().items, strings(&["a", "b"]));
    run.streamed(&mut tree, 0, 2);
    assert!(run.landed(&mut tree, 0, vec![1, 2]).is_none());
    run.settled(&mut tree, 0);
    assert_eq!(run.next(&mut tree, 0), Next::Run);
    assert_eq!(run.shard(0).unwrap().items, strings(&["c"]));
    assert_eq!(run.landed(&mut tree, 0, vec![3]), Some(vec![1, 2, 3]));
    run.settled(&mut tree, 0);
    assert_eq!(run.next(&mut tree, 0), Next::Exit);
    assert!(run.fatal().is_none());
    assert_eq!(tree.render(0, 0)[0], "HEAD       3");
}

#[test]
fn an_abort_halves_the_slots_and_then_the_shard() {
    let mut tree = Tree::new(0, false, false);
    let mut run = begin(&mut tree, &[strings(&["a", "b"]), strings(&["c"])], 8, 2);
    let all = strings(&["a", "b"]);
    assert_eq!(run.slots(), 2);
    assert_eq!(run.next(&mut tree, 0), Next::Run);
    assert_eq!(run.next(&mut tree, 1), Next::Run);
    match run.aborted(&mut tree, 0, all.clone(), vec!["e".into()], killed()) {
        AfterAbort::Requeued(note) => assert!(note.contains("(killed — out of memory)")),
        _ => panic!("the shard must come back"),
    }
    assert_eq!(run.landed(&mut tree, 1, vec![3]), Some(vec![3]));
    run.settled(&mut tree, 1);
    // One slot is left: the other worker is parked.
    assert_eq!(run.next(&mut tree, 1), Next::Wait);
    assert_eq!(run.next(&mut tree, 0), Next::Run);
    assert_eq!(run.shard(0).unwrap().items, all);
    match run.aborted(&mut tree, 0, all, vec!["e".into()], killed()) {
        AfterAbort::Requeued(_) => {}
        _ => panic!("the shard must be split"),
    }
    assert_eq!(run.next(&mut tree, 0), Next::Run);
    let one = run.shard(0).unwrap().items.clone();
    assert_eq!(one.len(), 1);
    match run.aborted(&mut tree, 0, one, vec!["e".into()], killed()) {
        AfterAbort::GaveUp => {}
        _ => panic!("one item at one slot is the bottom"),
    }
    assert_eq!(
        run.fatal().unwrap(),
        &Failure {
            context: vec![
                "evaluate: group 0 could not evaluate `a` — it aborted alone, at one slot, with nothing left to split or salvage".to_string(),
                "e".to_string(),
            ],
            abort: Some(killed()),
        }
    );
    assert_eq!(run.next(&mut tree, 0), Next::Exit);
}

#[test]
fn the_shards_that_land_hold_the_items_of_their_group() {
    let mut tree = Tree::new(0, false, false);
    let groups = [strings(&["a", "b", "a", "c", "d"]), strings(&["e"])];
    let mut run = begin(&mut tree, &groups, 3, 1);
    let mut items: Vec<Vec<String>> = vec![Vec::new(), Vec::new()];
    let mut sizes = Vec::new();
    let mut aborts = 0;
    loop {
        match run.next(&mut tree, 0) {
            Next::Run => {}
            Next::Exit => break,
            _ => panic!("one slot never waits"),
        }
        let g = run.shard(0).unwrap().group;
        let held = run.shard(0).unwrap().items.clone();
        // Shards of more than one item abort with all of them owed.
        if held.len() > 1 {
            aborts += 1;
            match run.aborted(&mut tree, 0, held, vec!["e".into()], killed()) {
                AfterAbort::Requeued(_) => {}
                _ => panic!("the shard must be split"),
            }
        } else {
            sizes.push(held.len());
            items[g].extend(held);
            run.landed(&mut tree, 0, vec![0]);
            run.settled(&mut tree, 0);
        }
    }
    assert!(run.fatal().is_none());
    assert_eq!(aborts, 3);
    assert_eq!(sizes, vec![1; 6]);
    items[0].sort();
    assert_eq!(items[0], strings(&["a", "a", "b", "c", "d"]));
    assert_eq!(items[1], strings(&["e"]));
}

#[test]
fn what_an_aborted_shard_landed_is_not_lost() {
    let mut tree = Tree::new(0, false, false);
    let mut run = begin(&mut tree, &[strings(&["a", "b"])], 8, 1);
    assert_eq!(run.next(&mut tree, 0), Next::Run);
    match run.aborted(&mut tree, 0, Vec::new(), vec!["e".into()], killed()) {
        AfterAbort::Salvaged(_, rows) => assert_eq!(rows, Some(vec![])),
        _ => panic!("all had landed"),
    }
    run.settled(&mut tree, 0);
    assert_eq!(run.next(&mut tree, 0), Next::Exit);
    assert!(run.fatal().is_none());
}

#[test]
fn a_cut_shard_owes_what_was_left_of_it() {
    let mut tree = Tree::new(0, false, false);
    let mut run = begin(&mut tree, &[strings(&["a", "b", "c"])], 8, 2);
    assert_eq!(run.slots(), 1);
    assert_eq!(run.next(&mut tree, 0), Next::Run);
    match run.aborted(&mut tree, 0, strings(&["b"]), vec!["e".into()], killed()) {
        AfterAbort::Requeued(_) => {}
        _ => panic!("the rest must come back"),
    }
    assert_eq!(run.next(&mut tree, 0), Next::Run);
    assert_eq!(run.shard(0).unwrap().items, strings(&["b"]));
    assert_eq!(run.landed(&mut tree, 0, vec![2]), Some(vec![2]));
    run.settled(&mut tree, 0);
    assert_eq!(run.next(&mut tree, 0), Next::Exit);
    assert!(run.fatal().is_none());
}

#[test]
fn the_first_error_ends_the_run() {
    let mut tree = Tree::new(0, false, false);
    let mut run = begin(&mut tree, &[strings(&["a"]), strings(&["b"])], 1, 2);
    assert_eq!(run.next(&mut tree, 0), Next::Run);
    assert_eq!(run.next(&mut tree, 1), Next::Run);
    run.failed(&mut tree, 1, vec!["first".into()]);
    run.failed(&mut tree, 0, vec!["second".into()]);
    assert_eq!(run.fatal().unwrap(), &Failure { context: vec!["first".into()], abort: None });
    assert_eq!(run.next(&mut tree, 0), Next::Exit);
    assert_eq!(run.label(1), "group 1");
}
