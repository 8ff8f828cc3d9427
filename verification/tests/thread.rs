use karst::codec::{Address, Cid};
use karst::thread::{Board, Graph, Label, Post, Showing};

fn addr(n: u8) -> Address {
    Address::from_raw([n; 32])
}

fn post(author: u8, seq: u64, body: &str, reply_to: Option<Cid>) -> Post {
    let mut b = vec![author];
    b.extend_from_slice(&seq.to_le_bytes());
    b.extend_from_slice(body.as_bytes());
    Post {
        cid: Cid::of(&b),
        author: addr(author),
        body: body.to_string(),
        reply_to,
        seq,
    }
}

/// Alice asks, Bob and a troll answer, and an autonomous agent (author 4) adds prior work.
fn sample() -> (Graph, Cid, Cid, Cid) {
    let mut g = Graph::new();
    let root = g.insert(post(1, 0, "Is L16 actually workable?", None));
    let _r1 = g.insert(post(2, 1, "Flat returns need a proof nobody has.", Some(root)));
    let r2 = g.insert(post(3, 2, "read the whitepaper sheeple", Some(root)));
    let r3 = g.insert(post(4, 3, "Related prior work: Loopix, Sphinx, SCION.", Some(root)));
    (g, root, r2, r3)
}

#[test]
fn threads_assemble_from_backlinks_with_no_host() {
    let (g, root, _, _) = sample();
    assert_eq!(g.thread(&root).len(), 4);
    assert_eq!(g.replies(&root).len(), 3);
    assert_eq!(g.roots(), vec![root]);
    assert_eq!(g.len(), 4);
}

#[test]
fn replies_come_in_sequence_order_then_by_identifier() {
    let mut g = Graph::new();
    let root = g.insert(post(1, 0, "root", None));
    let late = g.insert(post(2, 9, "late", Some(root)));
    let early = g.insert(post(3, 1, "early", Some(root)));
    let a = g.insert(post(4, 5, "tie a", Some(root)));
    let b = g.insert(post(5, 5, "tie b", Some(root)));
    let (first_tie, second_tie) = if a.sort_key() < b.sort_key() { (a, b) } else { (b, a) };
    assert_eq!(g.replies(&root), vec![early, first_tie, second_tie, late]);
    let t = g.thread(&root);
    let depths: Vec<usize> = t.iter().map(|e| e.0).collect();
    assert_eq!(depths, vec![0, 1, 1, 1, 1]);
}

#[test]
fn a_thread_is_depth_first() {
    let mut g = Graph::new();
    let root = g.insert(post(1, 0, "root", None));
    let a = g.insert(post(2, 1, "a", Some(root)));
    let b = g.insert(post(3, 2, "b", Some(root)));
    let aa = g.insert(post(4, 3, "aa", Some(a)));
    assert_eq!(g.thread(&root), vec![(0, root), (1, a), (2, aa), (1, b)]);
    // A thread under a post not held is empty.
    assert!(g.thread(&Cid::of(b"nothing")).is_empty());
}

#[test]
fn inserting_a_post_again_replaces_it() {
    let mut g = Graph::new();
    let p = post(1, 0, "x", None);
    let c = p.cid;
    g.insert(p);
    g.insert(post(1, 0, "x", None));
    assert_eq!(g.len(), 1);
    assert_eq!(g.get(&c).unwrap().body, "x");
    assert!(!g.is_empty());
}

#[test]
fn two_boards_over_identical_posts_show_different_things() {
    let (g, root, r2, _) = sample();
    let mut strict = Board::new("karst-design".to_string(), addr(1));
    strict.label(r2, Label::Hide);
    let mut loose = Board::new("karst-unmoderated".to_string(), addr(2));
    loose.label(r2, Label::Warn("low quality".to_string()));

    let t = g.thread(&root);
    let all = vec![true; t.len()];
    let a = strict.shown(&t, &all);
    let b = loose.shown(&t, &all);
    let i = t.iter().position(|e| e.1 == r2).unwrap();
    assert_eq!(a[i].showing, Showing::Hidden);
    assert_eq!(b[i].showing, Showing::Warned);
    assert_eq!(loose.label_of(&r2), Some(&Label::Warn("low quality".to_string())));
    assert_eq!(strict.hidden_count(&g, &root), 1);
    assert_eq!(loose.hidden_count(&g, &root), 0);
    assert!(g.get(&r2).is_some(), "the post itself is untouched");
}

#[test]
fn authorship_policy_changes_what_a_board_contains() {
    let (g, root, _, r3) = sample();
    let t = g.thread(&root);
    // A humans-only policy admits everything but the agent's post.
    let humans: Vec<bool> = t.iter().map(|e| e.1 != r3).collect();
    let board = Board::new("humans-only".to_string(), addr(1));
    let shown = board.shown(&t, &humans);
    assert_eq!(shown.iter().filter(|s| s.showing == Showing::Excluded).count(), 1);
    assert_eq!(board.excluded_count(&humans), 1);
    assert_eq!(board.excluded_count(&vec![true; t.len()]), 0);
    let agents: Vec<bool> = t.iter().map(|e| e.1 == r3).collect();
    assert_eq!(board.excluded_count(&agents), t.len() - 1);
    // Exclusion wins over any label.
    let mut labelled = Board::new("x".to_string(), addr(1));
    labelled.label(r3, Label::Hide);
    let shown = labelled.shown(&t, &humans);
    let i = t.iter().position(|e| e.1 == r3).unwrap();
    assert_eq!(shown[i].showing, Showing::Excluded);
    assert_eq!(shown[i].depth, 1);
}

#[test]
fn a_hostile_curator_costs_a_subscription_change_and_nothing_else() {
    let (g, root, r2, _) = sample();
    let mut captured = Board::new("official".to_string(), addr(1));
    captured.label(r2, Label::Hide);
    captured.label(g.replies(&root)[0], Label::Hide);
    assert_eq!(captured.hidden_count(&g, &root), 2);
    let fork = Board::new("official-fork".to_string(), addr(2));
    assert_eq!(fork.hidden_count(&g, &root), 0);
}

#[test]
fn a_later_label_replaces_an_earlier_one() {
    let (g, root, r2, _) = sample();
    let mut b = Board::new("b".to_string(), addr(1));
    b.label(r2, Label::Hide);
    b.label(r2, Label::Warn("changed my mind".to_string()));
    assert_eq!(b.hidden_count(&g, &root), 0);
}

#[test]
fn posts_from_strangers_are_accepted_on_their_own_evidence() {
    let mut g = Graph::new();
    let cid = g.insert(post(77, 0, "hello from nowhere", None));
    assert_eq!(g.get(&cid).unwrap().author, addr(77));
}
