//! Discussion with no host.
//!
//! A post names what it answers, so given the posts one holds, a thread assembles itself:
//! the replies to a post are a local computation, not a request to whoever owns the thread.
//! A board is a view over posts, not a place: a curator's labels hide or warn, and never
//! delete. Two boards over identical posts show different things, and both are correct.
//!
//! Signatures and authorship policies are checked by the caller; this holds the posts, finds
//! replies and threads, and decides what a board shows of each post.
use vstd::prelude::*;
use crate::codec::{cid_key, Address, Cid, CidView};
use crate::order::{compare_bytes, lex_lt};
use crate::witness::opt_view;

verus! {

broadcast use vstd::std_specs::vec::group_vec_axioms;

/// A post as values.
pub struct PostView {
    pub cid: CidView,
    pub author: Seq<u8>,
    pub body: Seq<char>,
    pub reply_to: Option<CidView>,
    pub seq: u64,
}

/// A post: a signed object that answers at most one other.
pub struct Post {
    pub cid: Cid,
    /// The key that signed it.
    pub author: Address,
    pub body: String,
    pub reply_to: Option<Cid>,
    pub seq: u64,
}

impl View for Post {
    type V = PostView;

    open spec fn view(&self) -> PostView {
        PostView {
            cid: self.cid@,
            author: self.author@,
            body: self.body@,
            reply_to: opt_view(self.reply_to),
            seq: self.seq,
        }
    }
}

/// The views of a list of posts.
pub open spec fn post_views(s: Seq<Post>) -> Seq<PostView> {
    s.map_values(|p: Post| p@)
}

/// Where the first post identified by `c` is held.
pub open spec fn index_of(g: Seq<PostView>, c: CidView) -> Option<int>
    decreases g.len(),
{
    if g.len() == 0 {
        None
    } else {
        match index_of(g.drop_last(), c) {
            Some(i) => Some(i),
            None => if g.last().cid == c {
                Some(g.len() - 1)
            } else {
                None
            },
        }
    }
}

/// The posts after taking `p`: it replaces the post with its identifier, or joins the end.
pub open spec fn insert_post(g: Seq<PostView>, p: PostView) -> Seq<PostView> {
    match index_of(g, p.cid) {
        Some(i) => g.update(i, p),
        None => g.push(p),
    }
}

/// Order of replies: by sequence, then by identifier.
pub open spec fn key_before(a: (u64, CidView), b: (u64, CidView)) -> bool {
    a.0 < b.0 || (a.0 == b.0 && lex_lt(cid_key(a.1), cid_key(b.1)))
}

/// Where `k` goes in `s`: after every key it does not come before.
pub open spec fn key_place(s: Seq<(u64, CidView)>, k: (u64, CidView)) -> nat
    decreases s.len(),
{
    if s.len() == 0 {
        0
    } else if !key_before(k, s.last()) {
        s.len()
    } else {
        key_place(s.drop_last(), k)
    }
}

/// `s` in `key_before` order.
pub open spec fn key_sorted(s: Seq<(u64, CidView)>) -> Seq<(u64, CidView)>
    decreases s.len(),
{
    if s.len() == 0 {
        s
    } else {
        let t = key_sorted(s.drop_last());
        t.insert(key_place(t, s.last()) as int, s.last())
    }
}

/// The sort keys of the posts among `g` that `pick` selects, in the order held.
pub open spec fn keys_where(g: Seq<PostView>, parent: Option<CidView>) -> Seq<(u64, CidView)>
    decreases g.len(),
{
    if g.len() == 0 {
        Seq::empty()
    } else {
        let rest = keys_where(g.drop_last(), parent);
        if g.last().reply_to == parent {
            rest.push((g.last().seq, g.last().cid))
        } else {
            rest
        }
    }
}

/// The identifiers of a list of keys.
pub open spec fn key_cids(s: Seq<(u64, CidView)>) -> Seq<CidView> {
    s.map_values(|k: (u64, CidView)| k.1)
}

/// The posts answering `parent` (or answering nothing, for `None`), by sequence then
/// identifier.
pub open spec fn answers(g: Seq<PostView>, parent: Option<CidView>) -> Seq<CidView> {
    key_cids(key_sorted(keys_where(g, parent)))
}

/// The thread under `c` at depth `d`, depth first. A chain of replies deeper than the posts
/// held can only be a cycle, and is cut there.
pub open spec fn walk_from(g: Seq<PostView>, c: CidView, d: nat) -> Seq<(nat, CidView)>
    decreases g.len() + 1 - d, 1int, 0int,
{
    if d > g.len() || index_of(g, c) is None {
        Seq::empty()
    } else {
        seq![(d, c)] + walk_list(g, answers(g, Some(c)), 0, d + 1)
    }
}

/// The threads under the `i`th and later of `list`, at depth `d`.
pub open spec fn walk_list(g: Seq<PostView>, list: Seq<CidView>, i: int, d: nat) -> Seq<(nat, CidView)>
    decreases g.len() + 2 - d, 0int, list.len() - i,
{
    if d > g.len() + 1 || i < 0 || i >= list.len() {
        Seq::empty()
    } else {
        walk_from(g, list[i], d) + walk_list(g, list, i + 1, d)
    }
}

/// The depth and identifier of thread entries.
pub open spec fn entry_views(s: Seq<(usize, Cid)>) -> Seq<(nat, CidView)> {
    s.map_values(|e: (usize, Cid)| (e.0 as nat, e.1@))
}

/// Everything held. Not a server, not authoritative: a local cache any peer holds a different
/// subset of.
pub struct Graph {
    posts: Vec<Post>,
}

impl View for Graph {
    type V = Seq<PostView>;

    closed spec fn view(&self) -> Seq<PostView> {
        post_views(self.posts@)
    }
}

impl Graph {
    pub fn new() -> (g: Self)
        ensures
            g@ == Seq::<PostView>::empty(),
    {
        let g = Graph { posts: Vec::new() };
        assert(g@ =~= Seq::<PostView>::empty());
        g
    }

    fn find(&self, c: &Cid) -> (r: Option<usize>)
        ensures
            match r {
                Some(i) => index_of(self@, c@) == Some(i as int) && i < self@.len(),
                None => index_of(self@, c@) is None,
            },
    {
        let ghost g = self@;
        let mut i: usize = 0;
        while i < self.posts.len()
            invariant
                g == post_views(self.posts@),
                i <= self.posts@.len(),
                index_of(g.take(i as int), c@) is None,
            decreases self.posts@.len() - i,
        {
            assert(g.take(i + 1).drop_last() == g.take(i as int));
            if self.posts[i].cid.same(c) {
                proof {
                    lemma_index_of_extends(g, i as int, c@);
                }
                return Some(i);
            }
            i += 1;
        }
        assert(g.take(i as int) == g);
        None
    }

    /// Take a post. A post with an identifier already held replaces it.
    pub fn insert(&mut self, post: Post) -> (c: Cid)
        ensures
            final(self)@ == insert_post(old(self)@, post@),
            c@ == post@.cid,
    {
        let c = post.cid;
        let ghost pv = post@;
        match self.find(&c) {
            Some(i) => {
                self.posts.set(i, post);
                assert(self@ == old(self)@.update(i as int, pv));
            },
            None => {
                self.posts.push(post);
                assert(self@ == old(self)@.push(pv));
            },
        }
        c
    }

    pub fn get(&self, c: &Cid) -> (r: Option<&Post>)
        ensures
            match index_of(self@, c@) {
                Some(i) => r is Some && r.unwrap()@ == self@[i],
                None => r is None,
            },
    {
        match self.find(c) {
            Some(i) => Some(&self.posts[i]),
            None => None,
        }
    }

    pub fn len(&self) -> (n: usize)
        ensures
            n == self@.len(),
    {
        self.posts.len()
    }

    pub fn is_empty(&self) -> (b: bool)
        ensures
            b == (self@.len() == 0),
    {
        self.posts.len() == 0
    }

    /// The keys of the posts answering `parent`, in the order held.
    fn keys_answering(&self, parent: &Option<Cid>) -> (v: Vec<(u64, Cid)>)
        ensures
            key_views(v@) == keys_where(self@, opt_view(*parent)),
    {
        let ghost g = self@;
        let ghost pv = opt_view(*parent);
        let mut v: Vec<(u64, Cid)> = Vec::new();
        let mut i: usize = 0;
        while i < self.posts.len()
            invariant
                g == post_views(self.posts@),
                pv == opt_view(*parent),
                i <= self.posts@.len(),
                key_views(v@) == keys_where(g.take(i as int), pv),
            decreases self.posts@.len() - i,
        {
            let ghost t = g.take(i + 1);
            assert(t.drop_last() == g.take(i as int));
            let p = &self.posts[i];
            if same_parent(&p.reply_to, parent) {
                v.push((p.seq, p.cid));
                assert(key_views(v@) == keys_where(t, pv));
            } else {
                assert(key_views(v@) == keys_where(t, pv));
            }
            i += 1;
        }
        assert(g.take(i as int) == g);
        v
    }

    /// The backlink query: every post held that answers `c`, by sequence then identifier.
    pub fn replies(&self, c: &Cid) -> (v: Vec<Cid>)
        ensures
            cid_views(v@) == answers(self@, Some(c@)),
    {
        let keys = self.keys_answering(&Some(*c));
        sort_keys(keys)
    }

    /// Posts that answer nothing, by sequence then identifier.
    pub fn roots(&self) -> (v: Vec<Cid>)
        ensures
            cid_views(v@) == answers(self@, None),
    {
        let keys = self.keys_answering(&None);
        sort_keys(keys)
    }

    /// The thread under `root`, depth first, as depth and identifier.
    pub fn thread(&self, root: &Cid) -> (out: Vec<(usize, Cid)>)
        requires
            self@.len() < usize::MAX,
        ensures
            entry_views(out@) == walk_from(self@, root@, 0),
    {
        let mut out: Vec<(usize, Cid)> = Vec::new();
        assert(entry_views(out@) == Seq::<(nat, CidView)>::empty());
        self.walk(root, 0, &mut out);
        assert(entry_views(out@) == Seq::<(nat, CidView)>::empty() + walk_from(self@, root@, 0));
        out
    }

    fn walk(&self, c: &Cid, depth: usize, out: &mut Vec<(usize, Cid)>)
        requires
            depth <= self@.len() + 1,
            self@.len() < usize::MAX,
        ensures
            entry_views(final(out)@) == entry_views(old(out)@) + walk_from(self@, c@, depth as nat),
        decreases self@.len() + 1 - depth, 1int,
    {
        if depth > self.posts.len() || self.find(c).is_none() {
            assert(entry_views(out@) == entry_views(old(out)@) + Seq::<(nat, CidView)>::empty());
            return;
        }
        let ghost before = entry_views(out@);
        out.push((depth, *c));
        assert(entry_views(out@) == before + seq![(depth as nat, c@)]);
        let rs = self.replies(c);
        let ghost list = cid_views(rs@);
        let ghost mid = entry_views(out@);
        let mut i: usize = 0;
        while i < rs.len()
            invariant
                list == cid_views(rs@),
                list == answers(self@, Some(c@)),
                depth < self@.len() + 1,
                self@.len() < usize::MAX,
                i <= rs@.len(),
                mid + walk_list(self@, list, 0, (depth + 1) as nat) == entry_views(out@) + walk_list(
                    self@,
                    list,
                    i as int,
                    (depth + 1) as nat,
                ),
            decreases rs@.len() - i,
        {
            let r = rs[i];
            assert(r@ == list[i as int]);
            let ghost here = entry_views(out@);
            self.walk(&r, depth + 1, out);
            assert(walk_list(self@, list, i as int, (depth + 1) as nat) == walk_from(
                self@,
                list[i as int],
                (depth + 1) as nat,
            ) + walk_list(self@, list, i + 1, (depth + 1) as nat));
            assert(here + walk_list(self@, list, i as int, (depth + 1) as nat) == entry_views(out@)
                + walk_list(self@, list, i + 1, (depth + 1) as nat));
            i += 1;
        }
        assert(walk_list(self@, list, i as int, (depth + 1) as nat) == Seq::<(nat, CidView)>::empty());
        assert(entry_views(out@) == mid + walk_list(self@, list, 0, (depth + 1) as nat));
        assert(walk_from(self@, c@, depth as nat) == seq![(depth as nat, c@)] + walk_list(
            self@,
            list,
            0,
            (depth + 1) as nat,
        ));
    }
}

/// The values of a list of sort keys.
pub open spec fn key_views(s: Seq<(u64, Cid)>) -> Seq<(u64, CidView)> {
    s.map_values(|k: (u64, Cid)| (k.0, k.1@))
}

/// The values of a list of identifiers.
pub open spec fn cid_views(s: Seq<Cid>) -> Seq<CidView> {
    s.map_values(|c: Cid| c@)
}

proof fn lemma_index_of_extends(g: Seq<PostView>, i: int, c: CidView)
    requires
        0 <= i < g.len(),
        index_of(g.take(i), c) is None,
        g[i].cid == c,
    ensures
        index_of(g, c) == Some(i),
    decreases g.len(),
{
    assert(g.take(i + 1).drop_last() == g.take(i));
    assert(index_of(g.take(i + 1), c) == Some(i));
    if i + 1 < g.len() {
        assert(g.drop_last().take(i + 1) == g.take(i + 1));
        assert(g.drop_last().take(i) == g.take(i));
        lemma_index_of_extends(g.drop_last(), i, c);
    } else {
        assert(g.take(i + 1) == g);
    }
}

/// Whether two optional identifiers hold the same value.
fn same_parent(a: &Option<Cid>, b: &Option<Cid>) -> (r: bool)
    ensures
        r == (opt_view(*a) == opt_view(*b)),
{
    match (a, b) {
        (Some(x), Some(y)) => x.same(y),
        (None, None) => true,
        _ => false,
    }
}

/// Whether key `a` comes before key `b`.
fn key_less(a: &(u64, Cid), b: &(u64, Cid)) -> (r: bool)
    ensures
        r == key_before((a.0, a.1@), (b.0, b.1@)),
{
    if a.0 < b.0 {
        return true;
    }
    if a.0 > b.0 {
        return false;
    }
    let ka = a.1.sort_key();
    let kb = b.1.sort_key();
    compare_bytes(ka.as_slice(), kb.as_slice()) < 0
}

/// Sort keys into `key_sorted` order and keep the identifiers.
fn sort_keys(keys: Vec<(u64, Cid)>) -> (v: Vec<Cid>)
    ensures
        cid_views(v@) == key_cids(key_sorted(key_views(keys@))),
{
    let ghost src = key_views(keys@);
    let total = keys.len();
    assert(src.len() == total);
    let mut sorted: Vec<(u64, Cid)> = Vec::new();
    let mut j: usize = 0;
    while j < keys.len()
        invariant
            src == key_views(keys@),
            j <= keys@.len(),
            key_views(sorted@) == key_sorted(src.take(j as int)),
        decreases keys@.len() - j,
    {
        let ghost t1 = src.take(j + 1);
        assert(t1.drop_last() == src.take(j as int));
        let k = keys[j];
        assert((k.0, k.1@) == src[j as int]);
        let ghost before = key_views(sorted@);
        let mut m = sorted.len();
        assert(before.take(m as int) == before);
        while m > 0 && key_less(&k, &sorted[m - 1])
            invariant
                m <= sorted@.len(),
                before == key_views(sorted@),
                key_place(before, (k.0, k.1@)) == key_place(before.take(m as int), (k.0, k.1@)),
            decreases m,
        {
            assert(before.take(m as int).drop_last() == before.take(m - 1));
            m -= 1;
        }
        if m == 0 {
            assert(before.take(0) == Seq::<(u64, CidView)>::empty());
        }
        proof {
            lemma_key_place_bound(before, (k.0, k.1@));
        }
        sorted.insert(m, k);
        assert(key_views(sorted@) == before.insert(m as int, (k.0, k.1@)));
        j += 1;
    }
    assert(src.take(j as int) == src);
    let ghost all = key_cids(key_views(sorted@));
    let mut v: Vec<Cid> = Vec::new();
    let mut i: usize = 0;
    while i < sorted.len()
        invariant
            i <= sorted@.len(),
            all == key_cids(key_views(sorted@)),
            cid_views(v@) == all.take(i as int),
        decreases sorted@.len() - i,
    {
        let ghost vb = v@;
        v.push(sorted[i].1);
        assert(all[i as int] == sorted@[i as int].1@);
        assert(cid_views(v@) =~= cid_views(vb).push(sorted@[i as int].1@));
        assert(all.take(i + 1) =~= all.take(i as int).push(all[i as int]));
        i += 1;
    }
    assert(all.take(i as int) == all);
    v
}

proof fn lemma_key_place_bound(s: Seq<(u64, CidView)>, k: (u64, CidView))
    ensures
        key_place(s, k) <= s.len(),
    decreases s.len(),
{
    if s.len() > 0 && key_before(k, s.last()) {
        lemma_key_place_bound(s.drop_last(), k);
    }
}

/// A curator's opinion about a post. Never a deletion: deletion is not available, and
/// pretending otherwise would be a lie.
#[derive(Clone, Debug, PartialEq, Eq)]
pub enum Label {
    Hide,
    Warn(String),
}

/// A label as a value.
pub enum LabelView {
    Hide,
    Warn(Seq<char>),
}

impl View for Label {
    type V = LabelView;

    open spec fn view(&self) -> LabelView {
        match self {
            Label::Hide => LabelView::Hide,
            Label::Warn(r) => LabelView::Warn(r@),
        }
    }
}

/// The label a list of labels gives `c`: the first one listed for it.
pub open spec fn label_at(ls: Seq<(CidView, LabelView)>, c: CidView) -> Option<LabelView>
    decreases ls.len(),
{
    if ls.len() == 0 {
        None
    } else {
        match label_at(ls.drop_last(), c) {
            Some(l) => Some(l),
            None => if ls.last().0 == c {
                Some(ls.last().1)
            } else {
                None
            },
        }
    }
}

/// Where the first label for `c` is listed.
pub open spec fn label_index(ls: Seq<(CidView, LabelView)>, c: CidView) -> Option<int>
    decreases ls.len(),
{
    if ls.len() == 0 {
        None
    } else {
        match label_index(ls.drop_last(), c) {
            Some(i) => Some(i),
            None => if ls.last().0 == c {
                Some(ls.len() - 1)
            } else {
                None
            },
        }
    }
}

/// The labels after labelling `c` with `l`: it replaces the label `c` had, or joins the end.
pub open spec fn set_label(ls: Seq<(CidView, LabelView)>, c: CidView, l: LabelView) -> Seq<(CidView, LabelView)> {
    match label_index(ls, c) {
        Some(i) => ls.update(i, (c, l)),
        None => ls.push((c, l)),
    }
}

/// How a board shows a post.
#[derive(Debug, Clone, Copy, PartialEq, Eq)]
pub enum Showing {
    /// The board's authorship policy excludes it; a tombstone says so.
    Excluded,
    /// The curator hides it; a tombstone says the object still exists.
    Hidden,
    /// Shown under the curator's warning.
    Warned,
    /// Shown as it is.
    Plain,
}

/// How a board shows a post its policy does or does not admit, given its label.
pub open spec fn showing_of(admitted: bool, label: Option<LabelView>) -> Showing {
    if !admitted {
        Showing::Excluded
    } else {
        match label {
            Some(LabelView::Hide) => Showing::Hidden,
            Some(LabelView::Warn(_)) => Showing::Warned,
            None => Showing::Plain,
        }
    }
}

/// One line of a board's rendering of a thread.
#[derive(Debug, Clone, Copy)]
pub struct Shown {
    pub depth: usize,
    pub cid: Cid,
    pub showing: Showing,
}

/// Whether `s` is how a board with labels `ls` shows thread entry `e`, admitted or not.
pub open spec fn shown_right(s: Shown, e: (usize, Cid), admitted: bool, ls: Seq<(CidView, LabelView)>) -> bool {
    s.depth == e.0 && s.cid == e.1 && s.showing == showing_of(admitted, label_at(ls, e.1@))
}

/// Entries of a thread that a list of labels hides.
pub open spec fn count_hidden(ls: Seq<(CidView, LabelView)>, t: Seq<(nat, CidView)>) -> nat
    decreases t.len(),
{
    if t.len() == 0 {
        0
    } else {
        count_hidden(ls, t.drop_last()) + if label_at(ls, t.last().1) == Some(LabelView::Hide) {
            1nat
        } else {
            0nat
        }
    }
}

/// A board: a name, a curator and a set of opinions. That is all a forum ever was. Its
/// authorship policy is applied by the caller, who says which posts it admits.
pub struct Board {
    pub name: String,
    pub curator: Address,
    labels: Vec<(Cid, Label)>,
}

/// The values of a list of labels.
pub open spec fn label_views(s: Seq<(Cid, Label)>) -> Seq<(CidView, LabelView)> {
    s.map_values(|e: (Cid, Label)| (e.0@, e.1@))
}

impl Board {
    /// The curator's labels, in the order first given.
    pub closed spec fn labels(&self) -> Seq<(CidView, LabelView)> {
        label_views(self.labels@)
    }

    pub fn new(name: String, curator: Address) -> (b: Self)
        ensures
            b.labels() == Seq::<(CidView, LabelView)>::empty(),
    {
        let b = Board { name, curator, labels: Vec::new() };
        assert(b.labels() =~= Seq::<(CidView, LabelView)>::empty());
        b
    }

    fn find_label(&self, c: &Cid) -> (r: Option<usize>)
        ensures
            match r {
                Some(i) => label_index(self.labels(), c@) == Some(i as int) && i < self.labels().len()
                    && label_at(self.labels(), c@) == Some(self.labels()[i as int].1),
                None => label_index(self.labels(), c@) is None && label_at(self.labels(), c@) is None,
            },
    {
        let ghost ls = self.labels();
        let mut i: usize = 0;
        while i < self.labels.len()
            invariant
                ls == label_views(self.labels@),
                i <= self.labels@.len(),
                label_index(ls.take(i as int), c@) is None,
                label_at(ls.take(i as int), c@) is None,
            decreases self.labels@.len() - i,
        {
            assert(ls.take(i + 1).drop_last() == ls.take(i as int));
            if self.labels[i].0.same(c) {
                proof {
                    lemma_label_found(ls, i as int, c@);
                }
                return Some(i);
            }
            i += 1;
        }
        assert(ls.take(i as int) == ls);
        None
    }

    /// Label a post; a later label for the same post replaces the earlier one.
    pub fn label(&mut self, cid: Cid, label: Label)
        ensures
            final(self).labels() == set_label(old(self).labels(), cid@, label@),
    {
        let ghost lv = label@;
        match self.find_label(&cid) {
            Some(i) => {
                self.labels.set(i, (cid, label));
                assert(self.labels() == old(self).labels().update(i as int, (cid@, lv)));
            },
            None => {
                self.labels.push((cid, label));
                assert(self.labels() == old(self).labels().push((cid@, lv)));
            },
        }
    }

    pub fn label_of(&self, cid: &Cid) -> (r: Option<&Label>)
        ensures
            match label_at(self.labels(), cid@) {
                Some(l) => r is Some && r.unwrap()@ == l,
                None => r is None,
            },
    {
        match self.find_label(cid) {
            Some(i) => Some(&self.labels[i].1),
            None => None,
        }
    }

    fn hides(&self, c: &Cid) -> (b: bool)
        ensures
            b == (label_at(self.labels(), c@) == Some(LabelView::Hide)),
    {
        match self.find_label(c) {
            Some(i) => match &self.labels[i].1 {
                Label::Hide => true,
                Label::Warn(_) => false,
            },
            None => false,
        }
    }

    /// How many posts this board's authorship policy excludes, given whether the policy
    /// admits each post of the thread (`admitted[i]` for the thread's `i`-th post).
    pub fn excluded_count(&self, admitted: &[bool]) -> (n: usize)
        ensures
            n == count_excluded(admitted@),
    {
        let mut n: usize = 0;
        let mut i: usize = 0;
        while i < admitted.len()
            invariant
                i <= admitted@.len(),
                n <= i,
                n == count_excluded(admitted@.take(i as int)),
            decreases admitted@.len() - i,
        {
            assert(admitted@.take(i + 1).drop_last() == admitted@.take(i as int));
            if !admitted[i] {
                n += 1;
            }
            i += 1;
        }
        assert(admitted@.take(i as int) == admitted@);
        n
    }

    /// How many posts in this thread this board hides.
    pub fn hidden_count(&self, g: &Graph, root: &Cid) -> (n: usize)
        requires
            g@.len() < usize::MAX,
        ensures
            n == count_hidden(self.labels(), walk_from(g@, root@, 0)),
    {
        let t = g.thread(root);
        let ghost tv = entry_views(t@);
        let mut n: usize = 0;
        let mut i: usize = 0;
        while i < t.len()
            invariant
                tv == entry_views(t@),
                i <= t@.len(),
                n <= i,
                n == count_hidden(self.labels(), tv.take(i as int)),
            decreases t@.len() - i,
        {
            assert(tv.take(i + 1).drop_last() == tv.take(i as int));
            assert(tv[i as int].1 == t@[i as int].1@);
            if self.hides(&t[i].1) {
                n += 1;
            }
            i += 1;
        }
        assert(tv.take(i as int) == tv);
        n
    }

    /// What this board shows of each entry of a thread, given which posts its authorship
    /// policy admits (`admitted[i]` for `thread[i]`). A post the policy excludes is shown as
    /// excluded whatever its label; hiding shows a tombstone, because the object still exists.
    pub fn shown(&self, thread: &[(usize, Cid)], admitted: &[bool]) -> (v: Vec<Shown>)
        requires
            admitted.len() == thread.len(),
        ensures
            v@.len() == thread@.len(),
            forall|i: int| 0 <= i < v@.len() ==> #[trigger] shown_right(v@[i], thread@[i], admitted@[i], self.labels()),
    {
        let mut v: Vec<Shown> = Vec::new();
        let mut i: usize = 0;
        while i < thread.len()
            invariant
                admitted.len() == thread.len(),
                i <= thread@.len(),
                v@.len() == i,
                forall|k: int| 0 <= k < i ==> #[trigger] shown_right(v@[k], thread@[k], admitted@[k], self.labels()),
            decreases thread@.len() - i,
        {
            let entry = thread[i];
            let depth = entry.0;
            let cid = entry.1;
            assert(entry == thread@[i as int]);
            let showing = if !admitted[i] {
                Showing::Excluded
            } else {
                match self.label_of(&cid) {
                    Some(Label::Hide) => Showing::Hidden,
                    Some(Label::Warn(_)) => Showing::Warned,
                    None => Showing::Plain,
                }
            };
            let ghost vb = v@;
            assert(showing == showing_of(admitted@[i as int], label_at(self.labels(), thread@[i as int].1@)));
            v.push(Shown { depth, cid, showing });
            assert(v@[i as int].depth == thread@[i as int].0);
            assert(v@[i as int].cid == thread@[i as int].1);
            assert(v@[i as int].showing == showing_of(admitted@[i as int], label_at(self.labels(), thread@[i as int].1@)));
            assert forall|k: int| 0 <= k < i + 1 implies #[trigger] shown_right(v@[k], thread@[k], admitted@[k], self.labels()) by {
                if k < i {
                    assert(v@[k] == vb[k]);
                    assert(shown_right(vb[k], thread@[k], admitted@[k], self.labels()));
                }
            }
            i += 1;
        }
        v
    }
}

proof fn lemma_label_found(ls: Seq<(CidView, LabelView)>, i: int, c: CidView)
    requires
        0 <= i < ls.len(),
        label_index(ls.take(i), c) is None,
        label_at(ls.take(i), c) is None,
        ls[i].0 == c,
    ensures
        label_index(ls, c) == Some(i),
        label_at(ls, c) == Some(ls[i].1),
    decreases ls.len(),
{
    assert(ls.take(i + 1).drop_last() == ls.take(i));
    if i + 1 < ls.len() {
        assert(ls.drop_last().take(i + 1) == ls.take(i + 1));
        assert(ls.drop_last().take(i) == ls.take(i));
        lemma_label_found(ls.drop_last(), i, c);
    } else {
        assert(ls.take(i + 1) == ls);
    }
}

/// Labels never remove a post: a board shows every entry of the thread it is given, in the
/// same order and at the same depth, however it labels them.
pub proof fn law_a_board_is_a_view_not_a_deletion(
    ls1: Seq<(CidView, LabelView)>,
    ls2: Seq<(CidView, LabelView)>,
    admitted: bool,
    c: CidView,
)
    ensures
        showing_of(admitted, label_at(ls1, c)) == Showing::Hidden ==> admitted && label_at(ls1, c)
            == Some(LabelView::Hide),
        label_at(ls2, c) is None ==> showing_of(admitted, label_at(ls2, c)) != Showing::Hidden,
        !admitted ==> showing_of(admitted, label_at(ls1, c)) == Showing::Excluded,
{
}

proof fn lemma_walk_held(g: Seq<PostView>, c: CidView, d: nat)
    ensures
        forall|k: int|
            0 <= k < walk_from(g, c, d).len() ==> #[trigger] index_of(g, walk_from(g, c, d)[k].1) is Some,
        walk_from(g, c, d).len() > 0 ==> walk_from(g, c, d)[0] == (d, c),
    decreases g.len() + 1 - d, 1int, 0int,
{
    if d > g.len() || index_of(g, c) is None {
    } else {
        lemma_walk_list_held(g, answers(g, Some(c)), 0, d + 1);
        let w = walk_from(g, c, d);
        let rest = walk_list(g, answers(g, Some(c)), 0, d + 1);
        assert forall|k: int| 0 <= k < w.len() implies #[trigger] index_of(g, w[k].1) is Some by {
            if k > 0 {
                assert(w[k] == rest[k - 1]);
            }
        }
    }
}

proof fn lemma_walk_list_held(g: Seq<PostView>, list: Seq<CidView>, i: int, d: nat)
    ensures
        forall|k: int|
            0 <= k < walk_list(g, list, i, d).len() ==> #[trigger] index_of(
                g,
                walk_list(g, list, i, d)[k].1,
            ) is Some,
    decreases g.len() + 2 - d, 0int, list.len() - i,
{
    if d > g.len() + 1 || i < 0 || i >= list.len() {
    } else {
        lemma_walk_held(g, list[i], d);
        lemma_walk_list_held(g, list, i + 1, d);
        let a = walk_from(g, list[i], d);
        let b = walk_list(g, list, i + 1, d);
        let w = walk_list(g, list, i, d);
        assert forall|k: int| 0 <= k < w.len() implies #[trigger] index_of(g, w[k].1) is Some by {
            if k < a.len() {
                assert(w[k] == a[k]);
            } else {
                assert(w[k] == b[k - a.len()]);
            }
        }
    }
}

/// A thread is assembled from posts held and nothing else: it starts at its root when the root
/// is held, and every entry in it is a post the graph holds.
pub proof fn law_a_thread_holds_only_posts_held(g: Seq<PostView>, root: CidView)
    ensures
        forall|k: int|
            0 <= k < walk_from(g, root, 0).len() ==> #[trigger] index_of(g, walk_from(g, root, 0)[k].1)
                is Some,
        index_of(g, root) is Some ==> walk_from(g, root, 0).len() > 0 && walk_from(g, root, 0)[0] == (
        0nat, root),
        index_of(g, root) is None ==> walk_from(g, root, 0).len() == 0,
{
    lemma_walk_held(g, root, 0);
}

/// How many of a thread's posts a policy does not admit.
pub open spec fn count_excluded(admitted: Seq<bool>) -> nat
    decreases admitted.len(),
{
    if admitted.len() == 0 {
        0
    } else {
        count_excluded(admitted.drop_last()) + if admitted.last() {
            0nat
        } else {
            1nat
        }
    }
}

} // verus!
