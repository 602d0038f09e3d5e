//! Three-way comparisons that the ranking orders are built from.
use vstd::prelude::*;

verus! {

/// Three-way comparison of integers: -1, 0 or 1.
pub open spec fn order_int(x: int, y: int) -> int {
    if x < y {
        -1
    } else if x > y {
        1
    } else {
        0
    }
}

/// The first non-zero comparison of a chain.
pub open spec fn then(first: int, rest: int) -> int {
    if first != 0 {
        first
    } else {
        rest
    }
}

/// Optional timestamps: absent sorts before present, present ones by value.
pub open spec fn order_opt(a: Option<i128>, b: Option<i128>) -> int {
    match (a, b) {
        (None, None) => 0,
        (None, Some(_)) => -1,
        (Some(_), None) => 1,
        (Some(x), Some(y)) => order_int(x as int, y as int),
    }
}

/// Lexicographic comparison of character sequences by code point, which is
/// the byte order of their UTF-8 encodings (the order of `str`).
pub open spec fn order_chars(a: Seq<char>, b: Seq<char>) -> int
    decreases a.len(),
{
    if a.len() == 0 && b.len() == 0 {
        0
    } else if a.len() == 0 {
        -1
    } else if b.len() == 0 {
        1
    } else if (a[0] as int) < (b[0] as int) {
        -1
    } else if (a[0] as int) > (b[0] as int) {
        1
    } else {
        order_chars(a.drop_first(), b.drop_first())
    }
}

/// Code-point order of texts is antisymmetric and three-valued, and only
/// equal texts compare equal.
pub proof fn lemma_order_chars(a: Seq<char>, b: Seq<char>)
    ensures
        order_chars(a, b) == -order_chars(b, a),
        -1 <= order_chars(a, b) <= 1,
        order_chars(a, b) == 0 ==> a == b,
    decreases a.len(),
{
    if a.len() > 0 && b.len() > 0 && (a[0] as int) == (b[0] as int) {
        lemma_order_chars(a.drop_first(), b.drop_first());
        if order_chars(a, b) == 0 {
            assert(a[0] == b[0]);
            assert(a =~= seq![a[0]] + a.drop_first());
            assert(b =~= seq![b[0]] + b.drop_first());
        }
    }
}

/// Code-point order of texts is transitive.
pub proof fn lemma_order_chars_trans(a: Seq<char>, b: Seq<char>, c: Seq<char>)
    requires
        order_chars(a, b) <= 0,
        order_chars(b, c) <= 0,
    ensures
        order_chars(a, c) <= 0,
    decreases a.len(),
{
    if a.len() > 0 && b.len() > 0 && c.len() > 0 && (a[0] as int) == (b[0] as int) && (b[0] as int) == (c[0] as int) {
        lemma_order_chars_trans(a.drop_first(), b.drop_first(), c.drop_first());
    }
}

/// Three-way comparison of character vectors by code point.
pub fn compare_chars(a: &Vec<char>, b: &Vec<char>) -> (r: i8)
    ensures
        r as int == order_chars(a@, b@),
{
    let mut i: usize = 0;
    assert(a@.subrange(0, a@.len() as int) =~= a@);
    assert(b@.subrange(0, b@.len() as int) =~= b@);
    while i < a.len() && i < b.len()
        invariant
            i <= a@.len(),
            i <= b@.len(),
            a@.subrange(0, i as int) == b@.subrange(0, i as int),
            order_chars(a@, b@) == order_chars(a@.subrange(i as int, a@.len() as int), b@.subrange(i as int, b@.len() as int)),
        decreases a@.len() - i,
    {
        let x = a[i];
        let y = b[i];
        let ghost sa = a@.subrange(i as int, a@.len() as int);
        let ghost sb = b@.subrange(i as int, b@.len() as int);
        assert(sa[0] == x && sb[0] == y);
        if x < y {
            return -1;
        }
        if x > y {
            return 1;
        }
        assert(sa.drop_first() =~= a@.subrange(i + 1, a@.len() as int));
        assert(sb.drop_first() =~= b@.subrange(i + 1, b@.len() as int));
        assert(x == y);
        assert(a@.subrange(0, i + 1) =~= a@.subrange(0, i as int).push(x));
        assert(b@.subrange(0, i + 1) =~= b@.subrange(0, i as int).push(y));
        i = i + 1;
    }
    if i < a.len() {
        1
    } else if i < b.len() {
        -1
    } else {
        0
    }
}


/// The ranking key of one candidate ticket.
pub struct CandidateKey {
    pub known: bool,
    pub max_index: int,
    pub gap: int,
    pub reach: int,
    pub effort: int,
    pub actionable_at: Option<i128>,
    pub priority_weight: int,
    pub state_rank: int,
    pub transitive: int,
    pub dependees: int,
    pub created_at: int,
    pub title: Seq<char>,
    pub id: int,
}

/// The candidate ranking: known tickets first; then the most advanced
/// affected dependent state, the widest state gap and the widest affected
/// reach first; then lower effort, more recent actionability, higher
/// priority, more advanced own state, more transitive dependents, more
/// direct dependents, newer creation; then title and id ascending.
/// Unknown tickets come last, by id.
pub open spec fn candidate_order(a: CandidateKey, b: CandidateKey) -> int {
    if a.known != b.known {
        if a.known { -1 } else { 1 }
    } else if !a.known {
        order_int(a.id, b.id)
    } else {
        then(order_int(b.max_index, a.max_index),
        then(order_int(b.gap, a.gap),
        then(order_int(b.reach, a.reach),
        then(order_int(a.effort, b.effort),
        then(order_opt(b.actionable_at, a.actionable_at),
        then(order_int(a.priority_weight, b.priority_weight),
        then(order_int(b.state_rank, a.state_rank),
        then(order_int(b.transitive, a.transitive),
        then(order_int(b.dependees, a.dependees),
        then(order_int(b.created_at, a.created_at),
        then(order_chars(a.title, b.title), order_int(a.id, b.id))))))))))))
    }
}

/// Candidate ranking is antisymmetric: swapping two keys flips the result.
pub proof fn lemma_candidate_order(a: CandidateKey, b: CandidateKey)
    ensures
        candidate_order(a, b) == -candidate_order(b, a),
{
    lemma_order_chars(a.title, b.title);
}

/// Candidate ranking is transitive, so with antisymmetry it is a total
/// preorder that sorting can follow.
#[verifier::rlimit(40)]
pub proof fn lemma_candidate_order_trans(a: CandidateKey, b: CandidateKey, c: CandidateKey)
    requires
        candidate_order(a, b) <= 0,
        candidate_order(b, c) <= 0,
    ensures
        candidate_order(a, c) <= 0,
{
    lemma_order_chars(a.title, b.title);
    lemma_order_chars(b.title, c.title);
    lemma_order_chars(a.title, c.title);
    if order_chars(a.title, b.title) <= 0 && order_chars(b.title, c.title) <= 0 {
        lemma_order_chars_trans(a.title, b.title, c.title);
    }
}

/// A candidate key as the program holds it.
pub struct CandidateKeyExec {
    pub known: bool,
    pub max_index: usize,
    pub gap: usize,
    pub reach: usize,
    pub effort: u64,
    pub actionable_at: Option<i128>,
    pub priority_weight: u8,
    pub state_rank: usize,
    pub transitive: usize,
    pub dependees: usize,
    pub created_at: i128,
    pub title: Vec<char>,
    pub id: u128,
}

impl View for CandidateKeyExec {
    type V = CandidateKey;

    open spec fn view(&self) -> CandidateKey {
        CandidateKey {
            known: self.known,
            max_index: self.max_index as int,
            gap: self.gap as int,
            reach: self.reach as int,
            effort: self.effort as int,
            actionable_at: self.actionable_at,
            priority_weight: self.priority_weight as int,
            state_rank: self.state_rank as int,
            transitive: self.transitive as int,
            dependees: self.dependees as int,
            created_at: self.created_at as int,
            title: self.title@,
            id: self.id as int,
        }
    }
}

fn order_u(x: u128, y: u128) -> (r: i8)
    ensures
        r as int == order_int(x as int, y as int),
{
    if x < y { -1 } else if x > y { 1 } else { 0 }
}

fn order_i(x: i128, y: i128) -> (r: i8)
    ensures
        r as int == order_int(x as int, y as int),
{
    if x < y { -1 } else if x > y { 1 } else { 0 }
}

fn order_o(a: Option<i128>, b: Option<i128>) -> (r: i8)
    ensures
        r as int == order_opt(a, b),
{
    match (a, b) {
        (None, None) => 0,
        (None, Some(_)) => -1,
        (Some(_), None) => 1,
        (Some(x), Some(y)) => order_i(x, y),
    }
}

/// Three-way comparison of two candidate keys.
pub fn compare_candidate_keys(a: &CandidateKeyExec, b: &CandidateKeyExec) -> (r: i8)
    ensures
        r as int == candidate_order(a@, b@),
{
    if a.known != b.known {
        return if a.known { -1 } else { 1 };
    }
    if !a.known {
        return order_u(a.id, b.id);
    }
    let c = order_u(b.max_index as u128, a.max_index as u128);
    if c != 0 { return c; }
    let c = order_u(b.gap as u128, a.gap as u128);
    if c != 0 { return c; }
    let c = order_u(b.reach as u128, a.reach as u128);
    if c != 0 { return c; }
    let c = order_u(a.effort as u128, b.effort as u128);
    if c != 0 { return c; }
    let c = order_o(b.actionable_at, a.actionable_at);
    if c != 0 { return c; }
    let c = order_u(a.priority_weight as u128, b.priority_weight as u128);
    if c != 0 { return c; }
    let c = order_u(b.state_rank as u128, a.state_rank as u128);
    if c != 0 { return c; }
    let c = order_u(b.transitive as u128, a.transitive as u128);
    if c != 0 { return c; }
    let c = order_u(b.dependees as u128, a.dependees as u128);
    if c != 0 { return c; }
    let c = order_i(b.created_at, a.created_at);
    if c != 0 { return c; }
    let c = compare_chars(&a.title, &b.title);
    if c != 0 { return c; }
    order_u(a.id, b.id)
}

pub open spec fn keys_view(v: Seq<CandidateKeyExec>) -> Seq<CandidateKey> {
    v.map_values(|k: CandidateKeyExec| k@)
}

/// Keys in candidate order: no later key ranks before an earlier one.
pub open spec fn keys_sorted(s: Seq<CandidateKey>) -> bool {
    forall|i: int, j: int| 0 <= i < j < s.len() ==> candidate_order(s[i], s[j]) <= 0
}

proof fn lemma_insert_sorted(ov: Seq<CandidateKey>, p: int, kv: CandidateKey)
    requires
        keys_sorted(ov),
        0 <= p <= ov.len(),
        forall|q: int| 0 <= q < p ==> candidate_order(ov[q], kv) <= 0,
        p < ov.len() ==> candidate_order(kv, ov[p]) < 0,
    ensures
        keys_sorted(ov.insert(p, kv)),
{
    let nv = ov.insert(p, kv);
    ov.insert_ensures(p, kv);
    assert forall|i: int, j: int| 0 <= i < j < nv.len() implies candidate_order(nv[i], nv[j]) <= 0 by {
        if j < p {
            assert(nv[i] == ov[i] && nv[j] == ov[j]);
        } else if j == p {
            assert(nv[i] == ov[i]);
        } else if i == p {
            assert(nv[j] == ov[j - 1]);
            if j - 1 > p {
                assert(candidate_order(ov[p], ov[j - 1]) <= 0);
                lemma_candidate_order_trans(kv, ov[p], ov[j - 1]);
            }
        } else if i < p {
            assert(nv[i] == ov[i] && nv[j] == ov[j - 1]);
        } else {
            assert(nv[i] == ov[i - 1] && nv[j] == ov[j - 1]);
        }
    }
}

proof fn lemma_move_first(ov: Seq<CandidateKey>, kb: Seq<CandidateKey>, p: int, kv: CandidateKey)
    requires
        kb.len() > 0,
        kb[0] == kv,
        0 <= p <= ov.len(),
    ensures
        ov.insert(p, kv).to_multiset().add(kb.remove(0).to_multiset()) == ov.to_multiset().add(kb.to_multiset()),
{
    broadcast use vstd::multiset::group_multiset_axioms;
    vstd::seq_lib::to_multiset_insert(ov, p, kv);
    vstd::seq_lib::to_multiset_remove(kb, 0);
    kb.to_multiset_ensures();
    assert(kb.contains(kv));
    assert(ov.to_multiset().insert(kv).add(kb.to_multiset().remove(kv)) =~= ov.to_multiset().add(kb.to_multiset()));
}

/// Mapping both sides of a permutation keeps them a permutation.
pub proof fn lemma_multiset_map<A, B>(s: Seq<A>, t: Seq<A>, f: spec_fn(A) -> B)
    requires
        s.to_multiset() == t.to_multiset(),
    ensures
        s.map_values(f).to_multiset() == t.map_values(f).to_multiset(),
    decreases s.len(),
{
    broadcast use vstd::multiset::group_multiset_axioms;
    s.to_multiset_ensures();
    t.to_multiset_ensures();
    if s.len() == 0 {
        assert(t.len() == 0);
        assert(s.map_values(f) =~= t.map_values(f));
    } else {
        let x = s[0];
        assert(s.contains(x));
        assert(t.to_multiset().count(x) > 0);
        assert(t.contains(x));
        let j = choose|j: int| 0 <= j < t.len() && t[j] == x;
        vstd::seq_lib::to_multiset_remove(s, 0);
        vstd::seq_lib::to_multiset_remove(t, j);
        lemma_multiset_map(s.remove(0), t.remove(j), f);
        let sm = s.map_values(f);
        let tm = t.map_values(f);
        assert(sm.remove(0) =~= s.remove(0).map_values(f));
        assert(tm.remove(j) =~= t.remove(j).map_values(f));
        vstd::seq_lib::to_multiset_remove(sm, 0);
        vstd::seq_lib::to_multiset_remove(tm, j);
        sm.to_multiset_ensures();
        tm.to_multiset_ensures();
        assert(sm.contains(f(x)));
        assert(tm[j] == f(x));
        assert(tm.contains(f(x)));
        assert(sm.to_multiset() =~= sm.to_multiset().remove(f(x)).insert(f(x)));
        assert(tm.to_multiset() =~= tm.to_multiset().remove(f(x)).insert(f(x)));
    }
}

/// Stable insertion sort of candidate keys.
pub fn sort_candidate_keys(keys: Vec<CandidateKeyExec>) -> (r: Vec<CandidateKeyExec>)
    ensures
        keys_view(r@).to_multiset() == keys_view(keys@).to_multiset(),
        keys_sorted(keys_view(r@)),
{
    broadcast use vstd::seq_lib::group_to_multiset_ensures;
    let mut keys = keys;
    let ghost orig = keys_view(keys@);
    let mut out: Vec<CandidateKeyExec> = Vec::new();
    while keys.len() > 0
        invariant
            keys_view(out@).to_multiset().add(keys_view(keys@).to_multiset()) == orig.to_multiset(),
            keys_sorted(keys_view(out@)),
        decreases keys@.len(),
    {
        let ghost kb = keys_view(keys@);
        let k = keys.remove(0);
        proof {
            assert(keys_view(keys@) =~= kb.remove(0));
            assert(kb[0] == k@);
        }
        let ghost ov = keys_view(out@);
        let mut p: usize = 0;
        let mut stop = false;
        while p < out.len() && !stop
            invariant
                ov == keys_view(out@),
                p <= out@.len(),
                forall|q: int| 0 <= q < p ==> candidate_order(ov[q], k@) <= 0,
                stop ==> p < out@.len() && candidate_order(k@, ov[p as int]) < 0,
            decreases out@.len() - p + (if stop { 0int } else { 1int }),
        {
            let c = compare_candidate_keys(&k, &out[p]);
            if c < 0 {
                stop = true;
            } else {
                proof { lemma_candidate_order(k@, ov[p as int]); }
                p = p + 1;
            }
        }
        let ghost kv = k@;
        out.insert(p, k);
        proof {
            assert(keys_view(out@) =~= ov.insert(p as int, kv));
            lemma_insert_sorted(ov, p as int, kv);
            lemma_move_first(ov, kb, p as int, kv);
        }
    }
    out
}


/// Ranking of dependency-state inversions of one dependent: widest state
/// gap first, then widest affected reach, then prerequisite id ascending.
pub open spec fn inversion_order(a: (int, int, int), b: (int, int, int)) -> int {
    then(order_int(b.0, a.0), then(order_int(b.1, a.1), order_int(a.2, b.2)))
}

/// Inversion keys (gap, reach, prerequisite, position) in ranking order;
/// equal keys keep their input positions in order.
pub open spec fn inv_key_order(a: (usize, usize, u128, usize), b: (usize, usize, u128, usize)) -> int {
    then(inversion_order((a.0 as int, a.1 as int, a.2 as int), (b.0 as int, b.1 as int, b.2 as int)), order_int(a.3 as int, b.3 as int))
}

pub open spec fn inv_keys_sorted(s: Seq<(usize, usize, u128, usize)>) -> bool {
    forall|i: int, j: int| 0 <= i < j < s.len() ==> inv_key_order(s[i], s[j]) <= 0
}

fn compare_inv_keys(a: (usize, usize, u128, usize), b: (usize, usize, u128, usize)) -> (r: i8)
    ensures
        r as int == inv_key_order(a, b),
{
    let c = order_u(b.0 as u128, a.0 as u128);
    if c != 0 { return c; }
    let c = order_u(b.1 as u128, a.1 as u128);
    if c != 0 { return c; }
    let c = order_u(a.2, b.2);
    if c != 0 { return c; }
    order_u(a.3 as u128, b.3 as u128)
}

proof fn lemma_insert_inv_sorted(ov: Seq<(usize, usize, u128, usize)>, p: int, kv: (usize, usize, u128, usize))
    requires
        inv_keys_sorted(ov),
        0 <= p <= ov.len(),
        forall|q: int| 0 <= q < p ==> inv_key_order(ov[q], kv) <= 0,
        p < ov.len() ==> inv_key_order(kv, ov[p]) < 0,
    ensures
        inv_keys_sorted(ov.insert(p, kv)),
{
    let nv = ov.insert(p, kv);
    ov.insert_ensures(p, kv);
    assert forall|i: int, j: int| 0 <= i < j < nv.len() implies inv_key_order(nv[i], nv[j]) <= 0 by {
        if j < p {
            assert(nv[i] == ov[i] && nv[j] == ov[j]);
        } else if j == p {
            assert(nv[i] == ov[i]);
        } else if i == p {
            assert(nv[j] == ov[j - 1]);
            if j - 1 > p {
                assert(inv_key_order(ov[p], ov[j - 1]) <= 0);
            }
        } else if i < p {
            assert(nv[i] == ov[i] && nv[j] == ov[j - 1]);
        } else {
            assert(nv[i] == ov[i - 1] && nv[j] == ov[j - 1]);
        }
    }
}

/// Stable insertion sort of inversion keys.
pub fn sort_inv_keys(keys: Vec<(usize, usize, u128, usize)>) -> (r: Vec<(usize, usize, u128, usize)>)
    ensures
        r@.to_multiset() == keys@.to_multiset(),
        inv_keys_sorted(r@),
{
    broadcast use vstd::seq_lib::group_to_multiset_ensures;
    let mut keys = keys;
    let ghost orig = keys@;
    let mut out: Vec<(usize, usize, u128, usize)> = Vec::new();
    while keys.len() > 0
        invariant
            out@.to_multiset().add(keys@.to_multiset()) == orig.to_multiset(),
            inv_keys_sorted(out@),
        decreases keys@.len(),
    {
        let ghost kb = keys@;
        let k = keys.remove(0);
        let ghost ov = out@;
        let mut p: usize = 0;
        let mut stop = false;
        while p < out.len() && !stop
            invariant
                ov == out@,
                p <= out@.len(),
                forall|q: int| 0 <= q < p ==> inv_key_order(ov[q], k) <= 0,
                stop ==> p < out@.len() && inv_key_order(k, ov[p as int]) < 0,
            decreases out@.len() - p + (if stop { 0int } else { 1int }),
        {
            let c = compare_inv_keys(k, out[p]);
            if c < 0 {
                stop = true;
            } else {
                p = p + 1;
            }
        }
        out.insert(p, k);
        proof {
            lemma_insert_inv_sorted(ov, p as int, k);
            broadcast use vstd::multiset::group_multiset_axioms;
            vstd::seq_lib::to_multiset_insert(ov, p as int, k);
            vstd::seq_lib::to_multiset_remove(kb, 0);
            kb.to_multiset_ensures();
            assert(kb.contains(k));
            assert(ov.to_multiset().insert(k).add(kb.to_multiset().remove(k)) =~= ov.to_multiset().add(kb.to_multiset()));
        }
    }
    out
}


/// The ordering key of a workflow tree node.
pub struct TreeKey {
    pub frontier: int,
    pub distance: int,
    pub effort: int,
    pub gap: int,
    pub reach: int,
    pub transitive: int,
    pub priority_weight: int,
    pub title: Seq<char>,
    pub id: int,
}

/// Sibling order in workflow trees: fewest frontier leaves first, then the
/// closest frontier, lower effort, wider state gap, wider affected reach,
/// more transitive dependents, higher priority; then title and id.
pub open spec fn tree_key_order(a: TreeKey, b: TreeKey) -> int {
    then(order_int(a.frontier, b.frontier),
    then(order_int(a.distance, b.distance),
    then(order_int(a.effort, b.effort),
    then(order_int(b.gap, a.gap),
    then(order_int(b.reach, a.reach),
    then(order_int(b.transitive, a.transitive),
    then(order_int(a.priority_weight, b.priority_weight),
    then(order_chars(a.title, b.title), order_int(a.id, b.id)))))))))
}

/// The order of tree siblings is antisymmetric.
pub proof fn lemma_tree_key_order(a: TreeKey, b: TreeKey)
    ensures
        tree_key_order(a, b) == -tree_key_order(b, a),
{
    lemma_order_chars(a.title, b.title);
}

/// The order of tree siblings is transitive.
#[verifier::rlimit(40)]
pub proof fn lemma_tree_key_order_trans(a: TreeKey, b: TreeKey, c: TreeKey)
    requires
        tree_key_order(a, b) <= 0,
        tree_key_order(b, c) <= 0,
    ensures
        tree_key_order(a, c) <= 0,
{
    lemma_order_chars(a.title, b.title);
    lemma_order_chars(b.title, c.title);
    lemma_order_chars(a.title, c.title);
    if order_chars(a.title, b.title) <= 0 && order_chars(b.title, c.title) <= 0 {
        lemma_order_chars_trans(a.title, b.title, c.title);
    }
}

/// A tree ordering key as the program holds it.
pub struct TreeKeyExec {
    pub frontier: usize,
    pub distance: usize,
    pub effort: u64,
    pub gap: usize,
    pub reach: usize,
    pub transitive: usize,
    pub priority_weight: u8,
    pub title: Vec<char>,
    pub id: u128,
}

impl View for TreeKeyExec {
    type V = TreeKey;

    open spec fn view(&self) -> TreeKey {
        TreeKey {
            frontier: self.frontier as int,
            distance: self.distance as int,
            effort: self.effort as int,
            gap: self.gap as int,
            reach: self.reach as int,
            transitive: self.transitive as int,
            priority_weight: self.priority_weight as int,
            title: self.title@,
            id: self.id as int,
        }
    }
}

/// Three-way comparison of two tree keys.
pub fn compare_tree_keys(a: &TreeKeyExec, b: &TreeKeyExec) -> (r: i8)
    ensures
        r as int == tree_key_order(a@, b@),
{
    let c = order_u(a.frontier as u128, b.frontier as u128);
    if c != 0 { return c; }
    let c = order_u(a.distance as u128, b.distance as u128);
    if c != 0 { return c; }
    let c = order_u(a.effort as u128, b.effort as u128);
    if c != 0 { return c; }
    let c = order_u(b.gap as u128, a.gap as u128);
    if c != 0 { return c; }
    let c = order_u(b.reach as u128, a.reach as u128);
    if c != 0 { return c; }
    let c = order_u(b.transitive as u128, a.transitive as u128);
    if c != 0 { return c; }
    let c = order_u(a.priority_weight as u128, b.priority_weight as u128);
    if c != 0 { return c; }
    let c = compare_chars(&a.title, &b.title);
    if c != 0 { return c; }
    order_u(a.id, b.id)
}

} // verus!
