//! The run model: what a whole download run does to the output directory,
//! stated over an abstract directory (name to content) and an abstract
//! fetch outcome (URL to payload; an absent key is a failed fetch).
//!
//! The laws here are the pipeline's load-bearing guarantees: with
//! replacement off, a run only adds files and never rewrites one that
//! exists, and a second run over the same feed changes nothing and
//! refetches nothing that exists; under either flag, the directory a run
//! leaves does not depend on the order in which concurrent fetches
//! complete; and the write-then-rename commit never exposes a truncated
//! payload under the final name.

use vstd::prelude::*;
use crate::episode::EpisodeView;
use crate::names::{final_name_of, temp_name_of, lemma_temp_final_distinct};
use crate::pipeline::{spec_plan_commit, CommitAction};

verus! {

/// The directory as the pipeline sees it: each file name maps to its bytes.
pub type DirView = Map<Seq<u8>, Seq<u8>>;

/// The final name an episode's media commits to.
pub open spec fn ep_final_name(e: EpisodeView) -> Seq<u8> {
    final_name_of(e.published_at, e.title)
}

/// Whether processing `e` against `dir` performs a network fetch: always
/// under forced replacement, otherwise only when its final name is absent.
pub open spec fn step_fetches(dir: DirView, e: EpisodeView, replace: bool) -> bool {
    replace || !dir.contains_key(ep_final_name(e))
}

/// Whether a fetch for `e` succeeds with a payload worth committing.
pub open spec fn fetch_commits(e: EpisodeView, fetch: Map<Seq<u8>, Seq<u8>>) -> bool {
    fetch.contains_key(e.url) && fetch[e.url].len() > 0
}

/// One episode processed to completion against `dir`.
pub open spec fn step_dir(
    dir: DirView,
    e: EpisodeView,
    fetch: Map<Seq<u8>, Seq<u8>>,
    replace: bool,
) -> DirView {
    if step_fetches(dir, e, replace) && fetch_commits(e, fetch) {
        dir.insert(ep_final_name(e), fetch[e.url])
    } else {
        dir
    }
}

/// The directory after the episodes listed in `order` are processed one
/// after another, each to completion, in exactly that order.
pub open spec fn run_order(
    eps: Seq<EpisodeView>,
    order: Seq<int>,
    dir: DirView,
    fetch: Map<Seq<u8>, Seq<u8>>,
    replace: bool,
) -> DirView
    decreases order.len(),
{
    if order.len() == 0 {
        dir
    } else {
        let i = order[0];
        let dir1 = if 0 <= i < eps.len() {
            step_dir(dir, eps[i], fetch, replace)
        } else {
            dir
        };
        run_order(eps, order.drop_first(), dir1, fetch, replace)
    }
}

/// The abstract step is exactly what the executable decisions dictate: a
/// fetch happens when `should_fetch` says so (over the existence of the
/// final name), and the directory changes exactly when `plan_commit`
/// decides a write for the payload the fetch produced — a failed fetch and
/// an empty payload alike leave the directory untouched.
pub proof fn lemma_step_follows_decisions(
    dir: DirView,
    e: EpisodeView,
    fetch: Map<Seq<u8>, Seq<u8>>,
    replace: bool,
)
    ensures
        ({
            let fin = ep_final_name(e);
            let exists = dir.contains_key(fin);
            let fetched = step_fetches(dir, e, replace);
            let len: int = if fetched && fetch.contains_key(e.url) {
                fetch[e.url].len() as int
            } else {
                0
            };
            step_dir(dir, e, fetch, replace) == if fetched && spec_plan_commit(
                len,
                replace,
                exists,
            ) == CommitAction::Write {
                dir.insert(fin, fetch[e.url])
            } else {
                dir
            }
        }),
        step_fetches(dir, e, replace) == (replace || !dir.contains_key(ep_final_name(e))),
{
}

/// Episode `i` exists, names `n`, and its fetch yields a committable payload.
pub open spec fn ep_commits(
    eps: Seq<EpisodeView>,
    i: int,
    fetch: Map<Seq<u8>, Seq<u8>>,
    n: Seq<u8>,
) -> bool {
    0 <= i < eps.len() && ep_final_name(eps[i]) == n && fetch_commits(eps[i], fetch)
}

/// Some episode processed by `order` commits a payload under `n`.
pub open spec fn has_commit(
    eps: Seq<EpisodeView>,
    order: Seq<int>,
    fetch: Map<Seq<u8>, Seq<u8>>,
    n: Seq<u8>,
) -> bool {
    exists|i: int| #[trigger] order.contains(i) && ep_commits(eps, i, fetch, n)
}

proof fn lemma_contains_split(order: Seq<int>, x: int)
    requires
        order.len() > 0,
    ensures
        order.contains(x) <==> (order[0] == x || order.drop_first().contains(x)),
{
    if order.contains(x) {
        let k = choose|k: int| 0 <= k < order.len() && order[k] == x;
        if k > 0 {
            assert(order.drop_first()[k - 1] == x);
            assert(order.drop_first().contains(x));
        }
    }
    if order.drop_first().contains(x) {
        let k = choose|k: int|
            0 <= k < order.drop_first().len() && order.drop_first()[k] == x;
        assert(order[k + 1] == x);
        assert(order.contains(x));
    }
}

/// With replacement off, a run only adds: a name holds a file afterward
/// exactly when it did before or some processed episode commits one, and a
/// file that stood before keeps its exact content.
pub proof fn lemma_run_grows(
    eps: Seq<EpisodeView>,
    order: Seq<int>,
    dir: DirView,
    fetch: Map<Seq<u8>, Seq<u8>>,
)
    ensures
        forall|n: Seq<u8>| #[trigger] run_order(eps, order, dir, fetch, false).contains_key(n)
            <==> (dir.contains_key(n) || has_commit(eps, order, fetch, n)),
        forall|n: Seq<u8>| dir.contains_key(n)
            ==> #[trigger] run_order(eps, order, dir, fetch, false)[n] == dir[n],
    decreases order.len(),
{
    if order.len() == 0 {
        assert forall|n: Seq<u8>| !has_commit(eps, order, fetch, n) by {
            if has_commit(eps, order, fetch, n) {
                let i = choose|i: int| #[trigger] order.contains(i) && ep_commits(eps, i, fetch, n);
                assert(order.contains(i));
                let k = choose|k: int| 0 <= k < order.len() && order[k] == i;
                assert(false);
            }
        }
    } else {
        let i0 = order[0];
        let rest = order.drop_first();
        let dir1 = if 0 <= i0 < eps.len() {
            step_dir(dir, eps[i0], fetch, false)
        } else {
            dir
        };
        lemma_run_grows(eps, rest, dir1, fetch);
        assert(run_order(eps, order, dir, fetch, false)
            == run_order(eps, rest, dir1, fetch, false));
        assert(order.contains(i0)) by {
            assert(order[0] == i0);
        }
        assert forall|n: Seq<u8>| #[trigger] dir1.contains_key(n)
            <==> (dir.contains_key(n) || ep_commits(eps, i0, fetch, n)) by {}
        assert forall|n: Seq<u8>| has_commit(eps, order, fetch, n)
            <==> (ep_commits(eps, i0, fetch, n) || has_commit(eps, rest, fetch, n)) by {
            if has_commit(eps, order, fetch, n) {
                let i = choose|i: int| #[trigger] order.contains(i) && ep_commits(eps, i, fetch, n);
                lemma_contains_split(order, i);
                if i != i0 {
                    assert(rest.contains(i) && ep_commits(eps, i, fetch, n));
                    assert(has_commit(eps, rest, fetch, n));
                }
            }
            if ep_commits(eps, i0, fetch, n) {
                assert(order.contains(i0) && ep_commits(eps, i0, fetch, n));
                assert(has_commit(eps, order, fetch, n));
            }
            if has_commit(eps, rest, fetch, n) {
                let i = choose|i: int| #[trigger] rest.contains(i) && ep_commits(eps, i, fetch, n);
                lemma_contains_split(order, i);
                assert(order.contains(i) && ep_commits(eps, i, fetch, n));
                assert(has_commit(eps, order, fetch, n));
            }
        }
    }
}

/// With pairwise-distinct final names, the content a fresh name receives is
/// pinned by the one episode that commits it, wherever that episode sits in
/// the completion order.
pub proof fn lemma_run_content(
    eps: Seq<EpisodeView>,
    order: Seq<int>,
    dir: DirView,
    fetch: Map<Seq<u8>, Seq<u8>>,
)
    requires
        forall|i: int, j: int| 0 <= i < j < eps.len()
            ==> ep_final_name(eps[i]) != ep_final_name(eps[j]),
    ensures
        forall|n: Seq<u8>, i: int|
            #![trigger order.contains(i), ep_commits(eps, i, fetch, n)]
            !dir.contains_key(n) && order.contains(i) && ep_commits(eps, i, fetch, n)
                ==> run_order(eps, order, dir, fetch, false)[n] == fetch[eps[i].url],
    decreases order.len(),
{
    if order.len() > 0 {
        let i0 = order[0];
        let rest = order.drop_first();
        let dir1 = if 0 <= i0 < eps.len() {
            step_dir(dir, eps[i0], fetch, false)
        } else {
            dir
        };
        lemma_run_content(eps, rest, dir1, fetch);
        lemma_run_grows(eps, rest, dir1, fetch);
        assert forall|n: Seq<u8>, i: int|
            !dir.contains_key(n) && #[trigger] order.contains(i)
                && #[trigger] ep_commits(eps, i, fetch, n) implies run_order(
            eps,
            order,
            dir,
            fetch,
            false,
        )[n] == fetch[eps[i].url] by {
            lemma_contains_split(order, i);
            if 0 <= i0 < eps.len() && ep_final_name(eps[i0]) == n {
                if i != i0 {
                    assert(ep_final_name(eps[i]) == ep_final_name(eps[i0]));
                    assert(false);
                }
                if fetch_commits(eps[i0], fetch) {
                    assert(dir1 == dir.insert(n, fetch[eps[i0].url]));
                    assert(dir1.contains_key(n));
                    assert(run_order(eps, rest, dir1, fetch, false)[n] == dir1[n]);
                } else {
                    assert(false);
                }
            } else {
                assert(i != i0);
                assert(rest.contains(i));
                assert(!dir1.contains_key(n));
                assert(run_order(eps, rest, dir1, fetch, false)[n] == fetch[eps[i].url]);
            }
        }
    }
}

/// Idempotence of a whole run: with replacement off and the same fetch
/// outcomes, running again over the directory the first run left changes
/// nothing, whatever completion order either run takes, as long as the
/// second run processes no episode the first did not.
pub proof fn lemma_rerun_is_noop(
    eps: Seq<EpisodeView>,
    order1: Seq<int>,
    order2: Seq<int>,
    dir: DirView,
    fetch: Map<Seq<u8>, Seq<u8>>,
)
    requires
        forall|x: int| #[trigger] order2.contains(x) ==> order1.contains(x),
    ensures
        run_order(eps, order2, run_order(eps, order1, dir, fetch, false), fetch, false)
            == run_order(eps, order1, dir, fetch, false),
{
    let d1 = run_order(eps, order1, dir, fetch, false);
    let d2 = run_order(eps, order2, d1, fetch, false);
    lemma_run_grows(eps, order1, dir, fetch);
    lemma_run_grows(eps, order2, d1, fetch);
    assert forall|n: Seq<u8>| #[trigger] d2.contains_key(n) implies d1.contains_key(n) by {
        if !d1.contains_key(n) && has_commit(eps, order2, fetch, n) {
            let i = choose|i: int| #[trigger] order2.contains(i) && ep_commits(eps, i, fetch, n);
            assert(order1.contains(i) && ep_commits(eps, i, fetch, n));
            assert(has_commit(eps, order1, fetch, n));
        }
    }
    assert forall|n: Seq<u8>| d1.contains_key(n) implies #[trigger] d2.contains_key(n)
        && d2[n] == d1[n] by {}
    assert(d2 =~= d1);
}

/// Fetches a run performs for episodes whose final file stands in `base`.
pub open spec fn existing_refetches(
    eps: Seq<EpisodeView>,
    order: Seq<int>,
    base: DirView,
    dir: DirView,
    fetch: Map<Seq<u8>, Seq<u8>>,
) -> nat
    decreases order.len(),
{
    if order.len() == 0 {
        0
    } else {
        let i = order[0];
        let this: nat = if 0 <= i < eps.len() && base.contains_key(ep_final_name(eps[i]))
            && step_fetches(dir, eps[i], false) {
            1
        } else {
            0
        };
        let dir1 = if 0 <= i < eps.len() {
            step_dir(dir, eps[i], fetch, false)
        } else {
            dir
        };
        this + existing_refetches(eps, order.drop_first(), base, dir1, fetch)
    }
}

/// The skip check works: a run with replacement off, started over a
/// directory that already holds every name in `base`, performs not one
/// network fetch for an episode whose final file is in `base`.
pub proof fn lemma_no_refetch_of_existing(
    eps: Seq<EpisodeView>,
    order: Seq<int>,
    base: DirView,
    dir: DirView,
    fetch: Map<Seq<u8>, Seq<u8>>,
)
    requires
        forall|n: Seq<u8>| #[trigger] base.contains_key(n) ==> dir.contains_key(n),
    ensures
        existing_refetches(eps, order, base, dir, fetch) == 0,
    decreases order.len(),
{
    if order.len() > 0 {
        let i = order[0];
        let dir1 = if 0 <= i < eps.len() {
            step_dir(dir, eps[i], fetch, false)
        } else {
            dir
        };
        lemma_no_refetch_of_existing(eps, order.drop_first(), base, dir1, fetch);
    }
}

/// Order independence: two runs over the same directory that process the
/// same set of episodes — in any two completion orders — leave identical
/// directories, provided no two episodes share a final name.
pub proof fn lemma_order_independent(
    eps: Seq<EpisodeView>,
    order1: Seq<int>,
    order2: Seq<int>,
    dir: DirView,
    fetch: Map<Seq<u8>, Seq<u8>>,
)
    requires
        forall|i: int, j: int| 0 <= i < j < eps.len()
            ==> ep_final_name(eps[i]) != ep_final_name(eps[j]),
        forall|x: int| #[trigger] order1.contains(x) <==> #[trigger] order2.contains(x),
    ensures
        run_order(eps, order1, dir, fetch, false) == run_order(eps, order2, dir, fetch, false),
{
    let r1 = run_order(eps, order1, dir, fetch, false);
    let r2 = run_order(eps, order2, dir, fetch, false);
    lemma_run_grows(eps, order1, dir, fetch);
    lemma_run_grows(eps, order2, dir, fetch);
    lemma_run_content(eps, order1, dir, fetch);
    lemma_run_content(eps, order2, dir, fetch);
    assert forall|n: Seq<u8>| #[trigger] has_commit(eps, order1, fetch, n)
        <==> has_commit(eps, order2, fetch, n) by {
        if has_commit(eps, order1, fetch, n) {
            let i = choose|i: int| #[trigger] order1.contains(i) && ep_commits(eps, i, fetch, n);
            assert(order2.contains(i) && ep_commits(eps, i, fetch, n));
            assert(has_commit(eps, order2, fetch, n));
        }
        if has_commit(eps, order2, fetch, n) {
            let i = choose|i: int| #[trigger] order2.contains(i) && ep_commits(eps, i, fetch, n);
            assert(order1.contains(i) && ep_commits(eps, i, fetch, n));
            assert(has_commit(eps, order1, fetch, n));
        }
    }
    assert forall|n: Seq<u8>| #[trigger] r1.contains_key(n) implies r1[n] == r2[n] by {
        if dir.contains_key(n) {
            assert(r1[n] == dir[n] && r2[n] == dir[n]);
        } else {
            assert(has_commit(eps, order1, fetch, n));
            let i = choose|i: int| #[trigger] order1.contains(i) && ep_commits(eps, i, fetch, n);
            assert(order2.contains(i));
            assert(r1[n] == fetch[eps[i].url]);
            assert(r2[n] == fetch[eps[i].url]);
        }
    }
    assert(r1 =~= r2);
}

/// Under forced replacement a run rewrites what it fetches: a name holds a
/// file afterward exactly when it did before or some processed episode
/// commits one, and a name no processed episode commits keeps its content.
pub proof fn lemma_run_grows_replace(
    eps: Seq<EpisodeView>,
    order: Seq<int>,
    dir: DirView,
    fetch: Map<Seq<u8>, Seq<u8>>,
)
    ensures
        forall|n: Seq<u8>| #[trigger] run_order(eps, order, dir, fetch, true).contains_key(n)
            <==> (dir.contains_key(n) || has_commit(eps, order, fetch, n)),
        forall|n: Seq<u8>| dir.contains_key(n) && !has_commit(eps, order, fetch, n)
            ==> #[trigger] run_order(eps, order, dir, fetch, true)[n] == dir[n],
    decreases order.len(),
{
    if order.len() == 0 {
        assert forall|n: Seq<u8>| !has_commit(eps, order, fetch, n) by {
            if has_commit(eps, order, fetch, n) {
                let i = choose|i: int| #[trigger] order.contains(i) && ep_commits(eps, i, fetch, n);
                let k = choose|k: int| 0 <= k < order.len() && order[k] == i;
                assert(false);
            }
        }
    } else {
        let i0 = order[0];
        let rest = order.drop_first();
        let dir1 = if 0 <= i0 < eps.len() {
            step_dir(dir, eps[i0], fetch, true)
        } else {
            dir
        };
        lemma_run_grows_replace(eps, rest, dir1, fetch);
        assert(run_order(eps, order, dir, fetch, true)
            == run_order(eps, rest, dir1, fetch, true));
        assert(order.contains(i0)) by {
            assert(order[0] == i0);
        }
        assert forall|n: Seq<u8>| #[trigger] dir1.contains_key(n)
            <==> (dir.contains_key(n) || ep_commits(eps, i0, fetch, n)) by {}
        assert forall|n: Seq<u8>| has_commit(eps, order, fetch, n)
            <==> (ep_commits(eps, i0, fetch, n) || has_commit(eps, rest, fetch, n)) by {
            if has_commit(eps, order, fetch, n) {
                let i = choose|i: int| #[trigger] order.contains(i) && ep_commits(eps, i, fetch, n);
                lemma_contains_split(order, i);
                if i != i0 {
                    assert(rest.contains(i) && ep_commits(eps, i, fetch, n));
                    assert(has_commit(eps, rest, fetch, n));
                }
            }
            if ep_commits(eps, i0, fetch, n) {
                assert(order.contains(i0) && ep_commits(eps, i0, fetch, n));
                assert(has_commit(eps, order, fetch, n));
            }
            if has_commit(eps, rest, fetch, n) {
                let i = choose|i: int| #[trigger] rest.contains(i) && ep_commits(eps, i, fetch, n);
                lemma_contains_split(order, i);
                assert(order.contains(i) && ep_commits(eps, i, fetch, n));
                assert(has_commit(eps, order, fetch, n));
            }
        }
        assert forall|n: Seq<u8>| dir.contains_key(n) && !has_commit(eps, order, fetch, n)
            implies #[trigger] run_order(eps, order, dir, fetch, true)[n] == dir[n] by {
            assert(!ep_commits(eps, i0, fetch, n));
            assert(dir1.contains_key(n) && dir1[n] == dir[n]);
            assert(!has_commit(eps, rest, fetch, n));
        }
    }
}

/// With pairwise-distinct final names and forced replacement, the content a
/// name receives is pinned by the one episode that commits it, wherever it
/// sits in the completion order.
pub proof fn lemma_run_content_replace(
    eps: Seq<EpisodeView>,
    order: Seq<int>,
    dir: DirView,
    fetch: Map<Seq<u8>, Seq<u8>>,
)
    requires
        forall|i: int, j: int| 0 <= i < j < eps.len()
            ==> ep_final_name(eps[i]) != ep_final_name(eps[j]),
    ensures
        forall|n: Seq<u8>, i: int|
            #![trigger order.contains(i), ep_commits(eps, i, fetch, n)]
            order.contains(i) && ep_commits(eps, i, fetch, n)
                ==> run_order(eps, order, dir, fetch, true)[n] == fetch[eps[i].url],
    decreases order.len(),
{
    if order.len() > 0 {
        let i0 = order[0];
        let rest = order.drop_first();
        let dir1 = if 0 <= i0 < eps.len() {
            step_dir(dir, eps[i0], fetch, true)
        } else {
            dir
        };
        lemma_run_content_replace(eps, rest, dir1, fetch);
        lemma_run_grows_replace(eps, rest, dir1, fetch);
        assert forall|n: Seq<u8>, i: int|
            #[trigger] order.contains(i) && #[trigger] ep_commits(eps, i, fetch, n) implies
            run_order(eps, order, dir, fetch, true)[n] == fetch[eps[i].url] by {
            lemma_contains_split(order, i);
            if 0 <= i0 < eps.len() && ep_final_name(eps[i0]) == n && fetch_commits(eps[i0], fetch) {
                if i != i0 {
                    assert(ep_final_name(eps[i]) == ep_final_name(eps[i0]));
                    assert(false);
                }
                assert(dir1 == dir.insert(n, fetch[eps[i0].url]));
                if has_commit(eps, rest, fetch, n) {
                    let j = choose|j: int| #[trigger] rest.contains(j) && ep_commits(eps, j, fetch, n);
                    assert(ep_final_name(eps[j]) == ep_final_name(eps[i0]));
                    assert(j == i0);
                    assert(run_order(eps, rest, dir1, fetch, true)[n] == fetch[eps[j].url]);
                } else {
                    assert(run_order(eps, rest, dir1, fetch, true)[n] == dir1[n]);
                }
            } else {
                assert(i != i0);
                assert(rest.contains(i));
                assert(run_order(eps, rest, dir1, fetch, true)[n] == fetch[eps[i].url]);
            }
        }
    }
}

/// Order independence under forced replacement: two runs over the same
/// directory that process the same set of episodes — in any two completion
/// orders — leave identical directories, provided no two episodes share a
/// final name.
pub proof fn lemma_order_independent_replace(
    eps: Seq<EpisodeView>,
    order1: Seq<int>,
    order2: Seq<int>,
    dir: DirView,
    fetch: Map<Seq<u8>, Seq<u8>>,
)
    requires
        forall|i: int, j: int| 0 <= i < j < eps.len()
            ==> ep_final_name(eps[i]) != ep_final_name(eps[j]),
        forall|x: int| #[trigger] order1.contains(x) <==> #[trigger] order2.contains(x),
    ensures
        run_order(eps, order1, dir, fetch, true) == run_order(eps, order2, dir, fetch, true),
{
    let r1 = run_order(eps, order1, dir, fetch, true);
    let r2 = run_order(eps, order2, dir, fetch, true);
    lemma_run_grows_replace(eps, order1, dir, fetch);
    lemma_run_grows_replace(eps, order2, dir, fetch);
    lemma_run_content_replace(eps, order1, dir, fetch);
    lemma_run_content_replace(eps, order2, dir, fetch);
    assert forall|n: Seq<u8>| #[trigger] has_commit(eps, order1, fetch, n)
        <==> has_commit(eps, order2, fetch, n) by {
        if has_commit(eps, order1, fetch, n) {
            let i = choose|i: int| #[trigger] order1.contains(i) && ep_commits(eps, i, fetch, n);
            assert(order2.contains(i) && ep_commits(eps, i, fetch, n));
            assert(has_commit(eps, order2, fetch, n));
        }
        if has_commit(eps, order2, fetch, n) {
            let i = choose|i: int| #[trigger] order2.contains(i) && ep_commits(eps, i, fetch, n);
            assert(order1.contains(i) && ep_commits(eps, i, fetch, n));
            assert(has_commit(eps, order1, fetch, n));
        }
    }
    assert forall|n: Seq<u8>| #[trigger] r1.contains_key(n) implies r1[n] == r2[n] by {
        if has_commit(eps, order1, fetch, n) {
            let i = choose|i: int| #[trigger] order1.contains(i) && ep_commits(eps, i, fetch, n);
            assert(order2.contains(i));
            assert(r1[n] == fetch[eps[i].url]);
            assert(r2[n] == fetch[eps[i].url]);
        } else {
            assert(r1[n] == dir[n] && r2[n] == dir[n]);
        }
    }
    assert(r1 =~= r2);
}

// ---- atomic commit ----

/// Every directory state the commit protocol for one episode can expose:
/// before anything is written; after the write to the temporary name — a
/// complete write, or a failed one that left only a prefix of the payload;
/// and, only after a complete write, after the rename onto the final name.
/// The rename is never attempted after a failed write.
pub open spec fn commit_observations(
    dir: DirView,
    ts: int,
    title: Seq<u8>,
    data: Seq<u8>,
    write_ok: bool,
    written: Seq<u8>,
) -> Seq<DirView> {
    let temp = temp_name_of(ts, title);
    let fin = final_name_of(ts, title);
    if write_ok {
        seq![dir, dir.insert(temp, data), dir.insert(temp, data).remove(temp).insert(fin, data)]
    } else {
        seq![dir, dir.insert(temp, written)]
    }
}

/// Atomicity: in every state the commit protocol can expose — including the
/// one a mid-write failure leaves — the final name either holds exactly
/// what it held before the commit began (or stays absent), or holds the
/// complete payload. No truncated payload is ever observable there.
pub proof fn lemma_commit_atomic(
    dir: DirView,
    ts: int,
    title: Seq<u8>,
    data: Seq<u8>,
    write_ok: bool,
    written: Seq<u8>,
)
    ensures
        forall|k: int| 0 <= k < commit_observations(dir, ts, title, data, write_ok, written).len()
            ==> {
                let d = #[trigger] commit_observations(dir, ts, title, data, write_ok, written)[k];
                let fin = final_name_of(ts, title);
                ||| (d.contains_key(fin) && d[fin] == data)
                ||| ((d.contains_key(fin) <==> dir.contains_key(fin)) && (dir.contains_key(fin)
                    ==> d[fin] == dir[fin]))
            },
{
    lemma_temp_final_distinct(ts, title);
}

} // verus!
