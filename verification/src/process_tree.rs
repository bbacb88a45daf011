//! The processes that run below a given process, as a `ps -o pid,ppid`
//! listing shows them.
use vstd::prelude::*;
use crate::text::{chars_of, lines, lines_of, parse_i32, parse_i32_spec, views, words, words_of};

verus! {

/// The pair (process id, parent process id) that a line of
/// `ps -o pid,ppid` gives: its first two words, read as integers.
pub open spec fn pid_pair(line: Seq<char>) -> Option<(i32, i32)> {
    let w = words(line);
    if w.len() >= 2 && parse_i32_spec(w[0]) is Some && parse_i32_spec(w[1]) is Some {
        Some((parse_i32_spec(w[0])->0, parse_i32_spec(w[1])->0))
    } else {
        None
    }
}

/// The pairs of the lines that give one, in order.
pub open spec fn pid_pairs(lines: Seq<Seq<char>>) -> Seq<(i32, i32)>
    decreases lines.len(),
{
    if lines.len() == 0 {
        Seq::empty()
    } else {
        let prev = pid_pairs(lines.drop_last());
        match pid_pair(lines.last()) {
            Some(p) => prev.push(p),
            None => prev,
        }
    }
}

/// Whether the first two words of `line` are integers.
pub open spec fn starts_with_two_ints(line: Seq<char>) -> bool {
    &&& words(line).len() >= 2
    &&& parse_i32_spec(words(line)[0]) is Some
    &&& parse_i32_spec(words(line)[1]) is Some
}

/// The first two integers of a line that starts with two integers.
pub open spec fn line_pair(line: Seq<char>) -> (i32, i32) {
    (parse_i32_spec(words(line)[0])->0, parse_i32_spec(words(line)[1])->0)
}

/// The `k`-th pair of the listing `ls` comes from its line `i`.
pub open spec fn pair_from_line(ls: Seq<Seq<char>>, k: int, i: int) -> bool {
    &&& 0 <= i < ls.len()
    &&& starts_with_two_ints(ls[i])
    &&& pid_pairs(ls)[k] == line_pair(ls[i])
}

/// The `k`-th pair of the listing `ls` comes from one of its lines.
pub open spec fn pair_has_line(ls: Seq<Seq<char>>, k: int) -> bool {
    exists|i: int| #[trigger] pair_from_line(ls, k, i)
}

/// The pairs of a listing are exactly the first two integers of its lines
/// that start with two integers: every such line gives its pair, whatever
/// the values, and every pair comes from such a line.
pub proof fn lemma_pid_pairs_from_lines(ls: Seq<Seq<char>>)
    ensures
        forall|i: int|
            0 <= i < ls.len() && #[trigger] starts_with_two_ints(ls[i]) ==> pid_pairs(ls).contains(
                line_pair(ls[i]),
            ),
        forall|k: int| 0 <= k < pid_pairs(ls).len() ==> #[trigger] pair_has_line(ls, k),
    decreases ls.len(),
{
    if ls.len() > 0 {
        let d = ls.drop_last();
        let n = ls.len() - 1;
        lemma_pid_pairs_from_lines(d);
        let pd = pid_pairs(d);
        let p = pid_pairs(ls);
        assert forall|i: int|
            0 <= i < ls.len() && #[trigger] starts_with_two_ints(ls[i]) implies p.contains(line_pair(ls[i])) by {
            let pr = line_pair(ls[i]);
            if i < n {
                assert(d[i] == ls[i]);
                assert(starts_with_two_ints(d[i]));
                assert(pd.contains(pr));
                let k = choose|k: int| 0 <= k < pd.len() && pd[k] == pr;
                assert(p[k] == pr);
            } else {
                assert(p == pd.push(pr));
                assert(p[pd.len() as int] == pr);
            }
        }
    }
    assert forall|k: int| 0 <= k < pid_pairs(ls).len() implies #[trigger] pair_has_line(ls, k) by {
        let i = lemma_pid_pair_source(ls, k);
        assert(pair_from_line(ls, k, i));
    }
}

/// The line that the `k`-th pair of a listing comes from.
proof fn lemma_pid_pair_source(ls: Seq<Seq<char>>, k: int) -> (i: int)
    requires
        0 <= k < pid_pairs(ls).len(),
    ensures
        pair_from_line(ls, k, i),
    decreases ls.len(),
{
    let d = ls.drop_last();
    let n = ls.len() - 1;
    let pd = pid_pairs(d);
    if pid_pair(ls.last()) is Some {
        assert(pid_pairs(ls) == pd.push(pid_pair(ls.last())->0));
        if k < pd.len() {
            let i = lemma_pid_pair_source(d, k);
            assert(d[i] == ls[i]);
            i
        } else {
            n
        }
    } else {
        assert(pid_pairs(ls) == pd);
        let i = lemma_pid_pair_source(d, k);
        assert(d[i] == ls[i]);
        i
    }
}

/// The (process id, parent process id) pairs of a `ps -o pid,ppid`
/// listing; lines that do not start with two integers, such as the header,
/// are skipped.
pub fn pid_ppid_pairs(ps_output: &str) -> (r: Vec<(i32, i32)>)
    ensures
        r@ == pid_pairs(lines(ps_output@)),
{
    let chars = chars_of(ps_output);
    let ls = lines_of(chars.as_slice());
    let ghost lv = views(ls@);
    let mut pairs: Vec<(i32, i32)> = Vec::new();
    for i in 0..ls.len()
        invariant
            lv == views(ls@),
            pairs@ == pid_pairs(lv.take(i as int)),
    {
        let columns = words_of(ls[i].as_slice());
        proof {
            assert(lv.take(i + 1).drop_last() =~= lv.take(i as int));
            assert(lv.take(i + 1).last() == ls@[i as int]@);
        }
        if columns.len() >= 2 {
            proof {
                assert(views(columns@)[0] == columns@[0]@);
                assert(views(columns@)[1] == columns@[1]@);
            }
            match (parse_i32(columns[0].as_slice()), parse_i32(columns[1].as_slice())) {
                (Some(pid), Some(ppid)) => {
                    pairs.push((pid, ppid));
                },
                _ => {},
            }
        }
    }
    assert(lv.take(lv.len() as int) =~= lv);
    pairs
}

/// The children of process `p`: the processes whose parent is `p`, in the
/// order of `pairs`.
pub open spec fn children(pairs: Seq<(i32, i32)>, p: i32) -> Seq<i32>
    decreases pairs.len(),
{
    if pairs.len() == 0 {
        Seq::empty()
    } else {
        let prev = children(pairs.drop_last(), p);
        if pairs.last().1 == p {
            prev.push(pairs.last().0)
        } else {
            prev
        }
    }
}

/// The children of each process of `front`, one after the other.
pub open spec fn expand(pairs: Seq<(i32, i32)>, front: Seq<i32>) -> Seq<i32>
    decreases front.len(),
{
    if front.len() == 0 {
        Seq::empty()
    } else {
        expand(pairs, front.drop_last()) + children(pairs, front.last())
    }
}

/// The processes `d` generations below `pid`, one for each chain of
/// parent links from them to `pid`.
pub open spec fn level(pairs: Seq<(i32, i32)>, pid: i32, d: nat) -> Seq<i32>
    decreases d,
{
    if d == 0 {
        seq![pid]
    } else {
        expand(pairs, level(pairs, pid, (d - 1) as nat))
    }
}

/// The generations `0..=d` below `pid`, one after the other.
pub open spec fn levels_upto(pairs: Seq<(i32, i32)>, pid: i32, d: nat) -> Seq<i32>
    decreases d,
{
    if d == 0 {
        level(pairs, pid, 0)
    } else {
        levels_upto(pairs, pid, (d - 1) as nat) + level(pairs, pid, d)
    }
}

/// The size of the process tree below `pid`, when it ends at depth `d`:
/// generation `d + 1` is empty and every generation before it is not.
pub open spec fn tree_ends_at(pairs: Seq<(i32, i32)>, pid: i32, d: nat) -> bool {
    &&& level(pairs, pid, d + 1).len() == 0
    &&& forall|e: nat| 1 <= e <= d ==> #[trigger] level(pairs, pid, e).len() > 0
}

/// Counts `pid` and the processes below it, generation by generation, as
/// long as there are any.  A process that can be reached by two chains of
/// parent links is counted twice.  When `pairs` has a cycle below `pid`
/// the generations never end, so such a count never finishes: then, after
/// one more generation than there are pairs, this count stops and returns
/// `None`, which it does exactly when the generations never end.
#[verifier::spinoff_prover]
#[verifier::rlimit(40)]
pub fn count_process_tree(pairs: &[(i32, i32)], pid: i32) -> (r: Option<usize>)
    ensures
        match r {
            Some(n) => exists|d: nat|
                d <= pairs@.len() && #[trigger] tree_ends_at(pairs@, pid, d) && n == levels_upto(
                    pairs@,
                    pid,
                    d,
                ).len(),
            None => forall|d: nat| d <= pairs@.len() ==> #[trigger] level(pairs@, pid, d + 1).len() > 0,
        },
        r is None <==> forall|d: nat| #[trigger] level(pairs@, pid, d).len() > 0,
{
    let ghost ps = pairs@;
    let bound = pairs.len();
    let mut nodes: Vec<i32> = Vec::new();
    nodes.push(pid);
    let mut start: usize = 0;
    let mut round: usize = 0;
    assert(nodes@ =~= levels_upto(ps, pid, 0));
    while round <= bound
        invariant
            ps == pairs@,
            bound == pairs@.len(),
            round <= bound + 1,
            nodes@ == levels_upto(ps, pid, round as nat),
            start + level(ps, pid, round as nat).len() == nodes@.len(),
            nodes@.skip(start as int) == level(ps, pid, round as nat),
            forall|e: nat| 1 <= e <= round ==> #[trigger] level(ps, pid, e).len() > 0,
        decreases bound + 1 - round,
    {
        let end = nodes.len();
        let ghost front = level(ps, pid, round as nat);
        let ghost done = nodes@;
        assert(expand(ps, front.take(0)) =~= Seq::<i32>::empty());
        assert(done + expand(ps, front.take(0)) =~= done);
        for j in start..end
            invariant
                ps == pairs@,
                end == done.len(),
                start + front.len() == end,
                done.skip(start as int) == front,
                nodes@ == done + expand(ps, front.take(j - start)),
        {
            let ghost before = nodes@;
            assert(nodes@[j as int] == done[j as int]);
            assert(done[j as int] == front[j - start]);
            let p = nodes[j];
            assert(children(ps, p).len() >= 0);
            for k in 0..pairs.len()
                invariant
                    ps == pairs@,
                    nodes@ == before + children(ps.take(k as int), p),
            {
                assert(ps.take(k + 1).drop_last() =~= ps.take(k as int));
                assert(ps.take(k + 1).last() == ps[k as int]);
                if pairs[k].1 == p {
                    nodes.push(pairs[k].0);
                }
            }
            proof {
                assert(ps.take(ps.len() as int) =~= ps);
                assert(front.take(j + 1 - start).drop_last() =~= front.take(j - start));
                assert(front.take(j + 1 - start).last() == p);
                assert(nodes@ =~= done + expand(ps, front.take(j + 1 - start)));
            }
        }
        proof {
            assert(front.take(end - start) =~= front);
            assert(level(ps, pid, (round + 1) as nat) == expand(ps, front));
            assert(levels_upto(ps, pid, (round + 1) as nat) == done + level(ps, pid, (round + 1) as nat));
        }
        if nodes.len() == end {
            assert(tree_ends_at(ps, pid, round as nat));
            assert(level(ps, pid, (round + 1) as nat).len() == 0);
            return Some(end);
        }
        proof {
            assert(nodes@.skip(end as int) =~= level(ps, pid, (round + 1) as nat));
            assert forall|e: nat| 1 <= e <= round + 1 implies #[trigger] level(ps, pid, e).len() > 0 by {
            }
        }
        if round == bound {
            proof {
                assert forall|d: nat| d <= ps.len() implies #[trigger] level(ps, pid, d + 1).len() > 0 by {
                    assert(1 <= d + 1 <= round + 1);
                }
                lemma_no_count_means_endless(ps, pid);
            }
            return None;
        }
        start = end;
        round = round + 1;
    }
    proof {
        assert forall|d: nat| d <= ps.len() implies #[trigger] level(ps, pid, d + 1).len() > 0 by {
            assert(1 <= d + 1 <= round);
        }
        lemma_no_count_means_endless(ps, pid);
    }
    None
}

/// How many processes run at or below `pid`, counted as `pid` itself and
/// every chain of parent links that leads to it in the `ps -o pid,ppid`
/// listing `ps_output`, as an `i32`; `None` exactly when the listing has
/// a cycle of parent links below `pid`, so that the count would never end.
pub fn processes_running(ps_output: &str, pid: i32) -> (r: Option<i32>)
    ensures
        match r {
            Some(n) => exists|d: nat|
                d <= pid_pairs(lines(ps_output@)).len() && #[trigger] tree_ends_at(
                    pid_pairs(lines(ps_output@)),
                    pid,
                    d,
                ) && n == levels_upto(pid_pairs(lines(ps_output@)), pid, d).len() as i32,
            None => forall|d: nat|
                d <= pid_pairs(lines(ps_output@)).len() ==> #[trigger] level(
                    pid_pairs(lines(ps_output@)),
                    pid,
                    d + 1,
                ).len() > 0,
        },
        r is None <==> forall|d: nat| #[trigger] level(pid_pairs(lines(ps_output@)), pid, d).len() > 0,
{
    let pairs = pid_ppid_pairs(ps_output);
    match count_process_tree(pairs.as_slice(), pid) {
        Some(n) => Some(n as i32),
        None => None,
    }
}

// ---------------------------------------------------------------------
// Chains of parent links
// ---------------------------------------------------------------------

/// The process reached after following the first `k` links of `js`, a
/// chain of indices into `pairs`, down from `pid`.
pub open spec fn chain_node(pairs: Seq<(i32, i32)>, pid: i32, js: Seq<int>, k: int) -> i32 {
    if k == 0 {
        pid
    } else {
        pairs[js[k - 1]].0
    }
}

/// `js` is a chain of pairs down from `pid`: each pair names as parent the
/// process that the previous one reached.
#[verifier::opaque]
pub open spec fn is_chain(pairs: Seq<(i32, i32)>, pid: i32, js: Seq<int>) -> bool {
    forall|k: int|
        0 <= k < js.len() ==> 0 <= #[trigger] js[k] < pairs.len() && pairs[js[k]].1 == chain_node(
            pairs,
            pid,
            js,
            k,
        )
}

proof fn lemma_children_member(pairs: Seq<(i32, i32)>, p: i32, x: i32)
    ensures
        children(pairs, p).contains(x) <==> exists|j: int|
            0 <= j < pairs.len() && #[trigger] pairs[j] == (x, p),
    decreases pairs.len(),
{
    if pairs.len() > 0 {
        let d = pairs.drop_last();
        lemma_children_member(d, p, x);
        let n = pairs.len() - 1;
        if children(pairs, p).contains(x) {
            if children(d, p).contains(x) {
                let j = choose|j: int| 0 <= j < d.len() && #[trigger] d[j] == (x, p);
                assert(pairs[j] == (x, p));
            } else {
                let i = choose|i: int| 0 <= i < children(pairs, p).len() && children(pairs, p)[i] == x;
                assert(pairs[n] == (x, p));
            }
        }
        if exists|j: int| 0 <= j < pairs.len() && #[trigger] pairs[j] == (x, p) {
            let j = choose|j: int| 0 <= j < pairs.len() && #[trigger] pairs[j] == (x, p);
            if j < n {
                assert(d[j] == (x, p));
                let i = choose|i: int| 0 <= i < children(d, p).len() && children(d, p)[i] == x;
                if pairs.last().1 == p {
                    assert(children(pairs, p)[i] == x);
                }
            } else {
                assert(children(pairs, p) == children(d, p).push(x));
                assert(children(pairs, p)[children(d, p).len() as int] == x);
            }
        }
    }
}

proof fn lemma_expand_member(pairs: Seq<(i32, i32)>, front: Seq<i32>, x: i32)
    ensures
        expand(pairs, front).contains(x) <==> exists|y: i32|
            front.contains(y) && #[trigger] children(pairs, y).contains(x),
    decreases front.len(),
{
    if front.len() == 0 {
        assert(expand(pairs, front) =~= Seq::<i32>::empty());
    } else {
        let d = front.drop_last();
        let y0 = front.last();
        lemma_expand_member(pairs, d, x);
        let e = expand(pairs, front);
        let ed = expand(pairs, d);
        let c = children(pairs, y0);
        assert(e == ed + c);
        if e.contains(x) {
            let i = choose|i: int| 0 <= i < e.len() && e[i] == x;
            if i < ed.len() {
                assert(ed[i] == x);
                let y = choose|y: i32| d.contains(y) && #[trigger] children(pairs, y).contains(x);
                let k = choose|k: int| 0 <= k < d.len() && d[k] == y;
                assert(front[k] == y);
                assert(front.contains(y));
            } else {
                assert(c[i - ed.len()] == x);
                assert(front[front.len() - 1] == y0);
                assert(front.contains(y0));
                assert(children(pairs, y0).contains(x));
            }
        }
        if exists|y: i32| front.contains(y) && #[trigger] children(pairs, y).contains(x) {
            let y = choose|y: i32| front.contains(y) && #[trigger] children(pairs, y).contains(x);
            let k = choose|k: int| 0 <= k < front.len() && front[k] == y;
            if k < d.len() {
                assert(d[k] == y);
                let i = choose|i: int| 0 <= i < ed.len() && ed[i] == x;
                assert(e[i] == x);
            } else {
                let i = choose|i: int| 0 <= i < c.len() && c[i] == x;
                assert(e[ed.len() + i] == x);
            }
        }
    }
}

/// A process `d` generations below `pid` is reached by a chain of `d`
/// pairs.
proof fn lemma_level_chain(pairs: Seq<(i32, i32)>, pid: i32, d: nat, x: i32)
    requires
        level(pairs, pid, d).contains(x),
    ensures
        exists|js: Seq<int>| #[trigger] is_chain(pairs, pid, js) && js.len() == d && chain_node(pairs, pid, js, d as int) == x,
    decreases d,
{
    reveal(is_chain);
    if d == 0 {
        assert(level(pairs, pid, 0) == seq![pid]);
        let js = Seq::<int>::empty();
        assert(is_chain(pairs, pid, js));
    } else {
        let dp = (d - 1) as nat;
        lemma_expand_member(pairs, level(pairs, pid, dp), x);
        let y = choose|y: i32| level(pairs, pid, dp).contains(y) && #[trigger] children(pairs, y).contains(x);
        lemma_children_member(pairs, y, x);
        let j = choose|j: int| 0 <= j < pairs.len() && #[trigger] pairs[j] == (x, y);
        lemma_level_chain(pairs, pid, dp, y);
        let js0 = choose|js: Seq<int>| #[trigger] is_chain(pairs, pid, js) && js.len() == dp && chain_node(pairs, pid, js, dp as int) == y;
        let js = js0.push(j);
        assert forall|k: int| 0 <= k < js.len() implies 0 <= #[trigger] js[k] < pairs.len() && pairs[js[k]].1 == chain_node(pairs, pid, js, k) by {
            if k < js0.len() {
                assert(js[k] == js0[k]);
                if k > 0 {
                    assert(js[k - 1] == js0[k - 1]);
                }
            }
        }
        assert(is_chain(pairs, pid, js));
        assert(chain_node(pairs, pid, js, d as int) == x);
    }
}

/// The end of a chain of `n` pairs down from `pid` is `n` generations
/// below it.
proof fn lemma_chain_level(pairs: Seq<(i32, i32)>, pid: i32, js: Seq<int>)
    requires
        is_chain(pairs, pid, js),
    ensures
        level(pairs, pid, js.len()).contains(chain_node(pairs, pid, js, js.len() as int)),
    decreases js.len(),
{
    reveal(is_chain);
    if js.len() == 0 {
        assert(level(pairs, pid, 0)[0] == pid);
    } else {
        let n = js.len() as int;
        let p = js.drop_last();
        assert forall|k: int| 0 <= k < p.len() implies 0 <= #[trigger] p[k] < pairs.len() && pairs[p[k]].1 == chain_node(pairs, pid, p, k) by {
            assert(p[k] == js[k]);
            assert(js[k] < pairs.len() && pairs[js[k]].1 == chain_node(pairs, pid, js, k));
            if k > 0 {
                assert(p[k - 1] == js[k - 1]);
            }
        }
        lemma_chain_level(pairs, pid, p);
        let y = chain_node(pairs, pid, p, n - 1);
        let j = js[n - 1];
        assert(pairs[j].1 == chain_node(pairs, pid, js, n - 1));
        if n > 1 {
            assert(p[n - 2] == js[n - 2]);
        }
        assert(chain_node(pairs, pid, js, n - 1) == y);
        let x = pairs[j].0;
        assert(pairs[j] == (x, y));
        lemma_children_member(pairs, y, x);
        lemma_expand_member(pairs, level(pairs, pid, (n - 1) as nat), x);
    }
}

/// A prefix of a chain is a chain.
proof fn lemma_chain_prefix(pairs: Seq<(i32, i32)>, pid: i32, js: Seq<int>, n: int)
    requires
        is_chain(pairs, pid, js),
        0 <= n <= js.len(),
    ensures
        is_chain(pairs, pid, js.take(n)),
{
    reveal(is_chain);
    let t = js.take(n);
    assert forall|k: int| 0 <= k < t.len() implies 0 <= #[trigger] t[k] < pairs.len() && pairs[t[k]].1 == chain_node(pairs, pid, t, k) by {
        assert(t[k] == js[k]);
        assert(js[k] < pairs.len() && pairs[js[k]].1 == chain_node(pairs, pid, js, k));
        if k > 0 {
            assert(t[k - 1] == js[k - 1]);
        }
    }
}

/// A chain that uses the same pair at two places can go round the loop
/// between them once more.
proof fn lemma_chain_pump(pairs: Seq<(i32, i32)>, pid: i32, js: Seq<int>, a: int, b: int)
    requires
        is_chain(pairs, pid, js),
        0 <= a < b < js.len(),
        js[a] == js[b],
    ensures
        is_chain(pairs, pid, js.take(b + 1) + js.skip(a + 1)),
        (js.take(b + 1) + js.skip(a + 1)).len() == js.len() + (b - a),
        (js.take(b + 1) + js.skip(a + 1))[b] == (js.take(b + 1) + js.skip(a + 1))[b + (b - a)],
{
    reveal(is_chain);
    let c = b - a;
    let q = js.take(b + 1) + js.skip(a + 1);
    assert forall|k: int| 0 <= k < q.len() implies 0 <= #[trigger] q[k] < pairs.len() && pairs[q[k]].1 == chain_node(pairs, pid, q, k) by {
        if k <= b {
            assert(q[k] == js[k]);
            assert(js[k] < pairs.len() && pairs[js[k]].1 == chain_node(pairs, pid, js, k));
            if k > 0 {
                assert(q[k - 1] == js[k - 1]);
            }
        } else {
            assert(q[k] == js[k - c]);
            assert(js[k - c] < pairs.len() && pairs[js[k - c]].1 == chain_node(pairs, pid, js, k - c));
            if k == b + 1 {
                assert(q[k - 1] == js[b]);
            } else {
                assert(q[k - 1] == js[k - 1 - c]);
            }
        }
    }
    assert(q[b] == js[b]);
    assert(q[b + c] == js[b]);
}

/// A chain with a repeated pair can be made as long as wanted.
proof fn lemma_chain_long(pairs: Seq<(i32, i32)>, pid: i32, js: Seq<int>, a: int, b: int, n: nat)
    requires
        is_chain(pairs, pid, js),
        0 <= a < b < js.len(),
        js[a] == js[b],
    ensures
        exists|q: Seq<int>| #[trigger] is_chain(pairs, pid, q) && q.len() >= n,
    decreases (if js.len() < n { n - js.len() } else { 0 }),
{
    if js.len() >= n {
        assert(is_chain(pairs, pid, js));
    } else {
        lemma_chain_pump(pairs, pid, js, a, b);
        let q = js.take(b + 1) + js.skip(a + 1);
        assert(q.len() == js.len() + (b - a));
        lemma_chain_long(pairs, pid, q, b, b + (b - a), n);
    }
}

/// Among more indices than there are values below `m`, two are equal.
proof fn lemma_pigeonhole(s: Seq<int>, m: int)
    requires
        0 <= m < s.len(),
        forall|k: int| 0 <= k < s.len() ==> 0 <= #[trigger] s[k] < m,
    ensures
        exists|a: int, b: int| 0 <= a < b < s.len() && #[trigger] s[a] == #[trigger] s[b],
{
    if s.no_duplicates() {
        s.unique_seq_to_set();
        vstd::set_lib::lemma_int_range(0, m);
        assert(s.to_set().subset_of(vstd::set_lib::set_int_range(0, m)));
        vstd::set_lib::lemma_len_subset(s.to_set(), vstd::set_lib::set_int_range(0, m));
        assert(false);
    } else {
        let (i, j) = choose|i: int, j: int| 0 <= i < s.len() && 0 <= j < s.len() && i != j && s[i] == s[j];
        if i < j {
            assert(s[i] == s[j]);
        } else {
            assert(s[j] == s[i]);
        }
    }
}

/// If there are processes one generation further down than there are
/// pairs, then the generations below `pid` never end: the chains reaching
/// them must use some pair twice, so they run round a cycle of parent
/// links.  This is when counting the process tree gives up, and when
/// counting generation by generation without bound would never finish.
pub proof fn lemma_deep_tree_never_ends(pairs: Seq<(i32, i32)>, pid: i32)
    requires
        level(pairs, pid, (pairs.len() + 1) as nat).len() > 0,
    ensures
        forall|d: nat| #[trigger] level(pairs, pid, d).len() > 0,
{
    reveal(is_chain);
    let b = (pairs.len() + 1) as nat;
    let x = level(pairs, pid, b)[0];
    assert(level(pairs, pid, b).contains(x));
    lemma_level_chain(pairs, pid, b, x);
    let js = choose|js: Seq<int>| #[trigger] is_chain(pairs, pid, js) && js.len() == b && chain_node(pairs, pid, js, b as int) == x;
    assert forall|k: int| 0 <= k < js.len() implies 0 <= #[trigger] js[k] < pairs.len() by {
    }
    lemma_pigeonhole(js, pairs.len() as int);
    let (i, j) = choose|i: int, j: int| 0 <= i < j < js.len() && #[trigger] js[i] == #[trigger] js[j];
    assert forall|d: nat| #[trigger] level(pairs, pid, d).len() > 0 by {
        lemma_chain_long(pairs, pid, js, i, j, d);
        let q = choose|q: Seq<int>| #[trigger] is_chain(pairs, pid, q) && q.len() >= d;
        lemma_chain_prefix(pairs, pid, q, d as int);
        lemma_chain_level(pairs, pid, q.take(d as int));
        assert(q.take(d as int).len() == d);
    }
}

/// When counting the process tree gives up, the generations below `pid`
/// never end.
pub proof fn lemma_no_count_means_endless(pairs: Seq<(i32, i32)>, pid: i32)
    requires
        forall|d: nat| d <= pairs.len() ==> #[trigger] level(pairs, pid, d + 1).len() > 0,
    ensures
        forall|d: nat| #[trigger] level(pairs, pid, d).len() > 0,
{
    assert(level(pairs, pid, (pairs.len() + 1) as nat).len() > 0);
    lemma_deep_tree_never_ends(pairs, pid);
}

} // verus!
