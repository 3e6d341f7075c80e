use crate::input::{Input, InputModel, same_text};
use crate::plan::{FrontMatter, InputFacts, PoolState, SourceState, plan_of};
use vstd::multiset::*;
use vstd::prelude::*;
use vstd::seq_lib::*;

verus! {

broadcast use {group_multiset_axioms, group_to_multiset_ensures};

/// Texts in lexicographic order of their characters (which is the order of
/// their UTF-8 bytes).
pub open spec fn text_le(a: Seq<char>, b: Seq<char>) -> bool
    decreases a.len(),
{
    if a.len() == 0 {
        true
    } else if b.len() == 0 {
        false
    } else if a[0] < b[0] {
        true
    } else if b[0] < a[0] {
        false
    } else {
        text_le(a.drop_first(), b.drop_first())
    }
}

pub open spec fn text_lt(a: Seq<char>, b: Seq<char>) -> bool {
    text_le(a, b) && a != b
}

/// The order of inputs: local builds by value first, then remote runs by
/// owner, repository and run.
pub open spec fn input_le(x: InputModel, y: InputModel) -> bool {
    match (x, y) {
        (InputModel::LocalBuild { id: a }, InputModel::LocalBuild { id: b }) => a <= b,
        (InputModel::LocalBuild { .. }, InputModel::GitHubRun { .. }) => true,
        (InputModel::GitHubRun { .. }, InputModel::LocalBuild { .. }) => false,
        (
            InputModel::GitHubRun { owner: o1, repo: r1, run_id: i1 },
            InputModel::GitHubRun { owner: o2, repo: r2, run_id: i2 },
        ) => text_lt(o1, o2) || (o1 == o2 && (text_lt(r1, r2) || (r1 == r2 && text_le(i1, i2)))),
    }
}

/// Facts in the order of their inputs.
pub open spec fn sorted_by_input(s: Seq<InputFacts>) -> bool {
    forall|i: int, j: int|
        0 <= i < j < s.len() ==> input_le(#[trigger] s[i].input.model(), #[trigger] s[j].input.model())
}

/// Facts about one input are the same wherever that input appears.
pub open spec fn facts_follow_input(s: Seq<InputFacts>) -> bool {
    forall|i: int, j: int|
        0 <= i < s.len() && 0 <= j < s.len() && #[trigger] s[i].input.model()
            == #[trigger] s[j].input.model() ==> s[i] == s[j]
}

proof fn lemma_text_le_refl(a: Seq<char>)
    ensures
        text_le(a, a),
    decreases a.len(),
{
    if a.len() > 0 {
        lemma_text_le_refl(a.drop_first());
    }
}

proof fn lemma_text_le_antisym(a: Seq<char>, b: Seq<char>)
    requires
        text_le(a, b),
        text_le(b, a),
    ensures
        a == b,
    decreases a.len(),
{
    if a.len() == 0 {
        assert(b =~= a);
    } else {
        assert(b.len() > 0);
        assert(a[0] == b[0]);
        lemma_text_le_antisym(a.drop_first(), b.drop_first());
        assert(a.len() == b.len());
        assert(a =~= b) by {
            assert forall|k: int| 0 <= k < a.len() implies a[k] == b[k] by {
                if k > 0 {
                    assert(a[k] == a.drop_first()[k - 1]);
                    assert(b[k] == b.drop_first()[k - 1]);
                }
            }
        }
    }
}

proof fn lemma_text_le_total(a: Seq<char>, b: Seq<char>)
    ensures
        text_le(a, b) || text_le(b, a),
    decreases a.len(),
{
    if a.len() > 0 && b.len() > 0 && a[0] == b[0] {
        lemma_text_le_total(a.drop_first(), b.drop_first());
    }
}

proof fn lemma_text_le_trans(a: Seq<char>, b: Seq<char>, c: Seq<char>)
    requires
        text_le(a, b),
        text_le(b, c),
    ensures
        text_le(a, c),
    decreases a.len(),
{
    if a.len() > 0 && b.len() > 0 && c.len() > 0 && a[0] == b[0] && b[0] == c[0] {
        lemma_text_le_trans(a.drop_first(), b.drop_first(), c.drop_first());
    }
}

proof fn lemma_input_le_facts(x: InputModel, y: InputModel, z: InputModel)
    ensures
        input_le(x, x),
        input_le(x, y) || input_le(y, x),
        input_le(x, y) && input_le(y, x) ==> x == y,
        input_le(x, y) && input_le(y, z) ==> input_le(x, z),
{
    if let (
        InputModel::GitHubRun { owner: o1, repo: r1, run_id: i1 },
        InputModel::GitHubRun { owner: o2, repo: r2, run_id: i2 },
    ) = (x, y) {
        lemma_text_le_refl(i1);
        lemma_text_le_total(o1, o2);
        lemma_text_le_total(r1, r2);
        lemma_text_le_total(i1, i2);
        if text_le(o1, o2) && text_le(o2, o1) {
            lemma_text_le_antisym(o1, o2);
        }
        if text_le(r1, r2) && text_le(r2, r1) {
            lemma_text_le_antisym(r1, r2);
        }
        if text_le(i1, i2) && text_le(i2, i1) {
            lemma_text_le_antisym(i1, i2);
        }
        if let InputModel::GitHubRun { owner: o3, repo: r3, run_id: i3 } = z {
            if input_le(x, y) && input_le(y, z) {
                if text_le(o1, o2) && text_le(o2, o3) {
                    lemma_text_le_trans(o1, o2, o3);
                }
                if text_le(r1, r2) && text_le(r2, r3) {
                    lemma_text_le_trans(r1, r2, r3);
                }
                if text_le(i1, i2) && text_le(i2, i3) {
                    lemma_text_le_trans(i1, i2, i3);
                }
                if text_le(o1, o3) && text_le(o3, o1) {
                    lemma_text_le_antisym(o1, o3);
                    if text_le(o1, o2) && text_le(o2, o1) {
                        lemma_text_le_antisym(o1, o2);
                    }
                }
                if text_le(r1, r3) && text_le(r3, r1) {
                    lemma_text_le_antisym(r1, r3);
                    if text_le(r1, r2) && text_le(r2, r1) {
                        lemma_text_le_antisym(r1, r2);
                    }
                }
            }
        }
    } else {
        if let InputModel::GitHubRun { run_id: i1, .. } = x {
            lemma_text_le_refl(i1);
        }
        if let (InputModel::GitHubRun { owner: o2, repo: r2, run_id: i2 }, InputModel::GitHubRun {
            owner: o3,
            repo: r3,
            run_id: i3,
        }) = (y, z) {
            lemma_text_le_refl(i2);
        }
    }
}


/// Whether `a` comes before `b`, or equals it, in lexicographic order.
fn text_le_exec(a: &str, b: &str) -> (r: bool)
    ensures
        r == text_le(a@, b@),
{
    let n = a.unicode_len();
    let m = b.unicode_len();
    let mut i: usize = 0;
    assert(a@.skip(0) =~= a@);
    assert(b@.skip(0) =~= b@);
    while i < n && i < m
        invariant
            i <= n == a@.len(),
            i <= m == b@.len(),
            text_le(a@, b@) == text_le(a@.skip(i as int), b@.skip(i as int)),
        decreases n - i,
    {
        let x = a.get_char(i);
        let y = b.get_char(i);
        assert(a@.skip(i as int)[0] == x);
        assert(b@.skip(i as int)[0] == y);
        if x < y {
            return true;
        }
        if y < x {
            return false;
        }
        assert(a@.skip(i as int).drop_first() =~= a@.skip(i as int + 1));
        assert(b@.skip(i as int).drop_first() =~= b@.skip(i as int + 1));
        i += 1;
    }
    i == n
}

/// Whether input `x` comes before `y`, or equals it.
pub fn input_le_exec(x: &Input, y: &Input) -> (r: bool)
    ensures
        r == input_le(x.model(), y.model()),
{
    match (x, y) {
        (Input::LocalBuild { id: a }, Input::LocalBuild { id: b }) => *a <= *b,
        (Input::LocalBuild { .. }, Input::GitHubRun { .. }) => true,
        (Input::GitHubRun { .. }, Input::LocalBuild { .. }) => false,
        (
            Input::GitHubRun { owner: o1, repo: r1, run_id: i1 },
            Input::GitHubRun { owner: o2, repo: r2, run_id: i2 },
        ) => {
            if !same_text(o1.as_str(), o2.as_str()) {
                text_le_exec(o1.as_str(), o2.as_str())
            } else if !same_text(r1.as_str(), r2.as_str()) {
                text_le_exec(r1.as_str(), r2.as_str())
            } else {
                text_le_exec(i1.as_str(), i2.as_str())
            }
        },
    }
}

/// The facts in the order of their inputs.
pub fn sort_facts(facts: Vec<InputFacts>) -> (r: Vec<InputFacts>)
    ensures
        sorted_by_input(r@),
        r@.to_multiset() == facts@.to_multiset(),
{
    let ghost all = facts@.to_multiset();
    let mut rest = facts;
    let mut out: Vec<InputFacts> = Vec::new();
    assert(out@.to_multiset() =~= Multiset::<InputFacts>::empty());
    while rest.len() > 0
        invariant
            sorted_by_input(out@),
            out@.to_multiset().add(rest@.to_multiset()) == all,
            forall|i: int, j: int|
                0 <= i < out@.len() && 0 <= j < rest@.len() ==> input_le(
                    #[trigger] out@[i].input.model(),
                    #[trigger] rest@[j].input.model(),
                ),
        decreases rest@.len(),
    {
        let mut m: usize = 0;
        let mut k: usize = 1;
        proof {
            lemma_input_le_facts(rest@[0].input.model(), rest@[0].input.model(), rest@[0].input.model());
        }
        while k < rest.len()
            invariant
                m < k <= rest@.len(),
                forall|j: int| 0 <= j < k ==> input_le(rest@[m as int].input.model(), #[trigger] rest@[j].input.model()),
            decreases rest@.len() - k,
        {
            proof {
                lemma_input_le_facts(rest@[m as int].input.model(), rest@[k as int].input.model(), rest@[k as int].input.model());
            }
            if !input_le_exec(&rest[m].input, &rest[k].input) {
                proof {
                    assert forall|j: int| 0 <= j <= k implies input_le(
                        rest@[k as int].input.model(),
                        #[trigger] rest@[j].input.model(),
                    ) by {
                        lemma_input_le_facts(
                            rest@[k as int].input.model(),
                            rest@[m as int].input.model(),
                            rest@[j].input.model(),
                        );
                    }
                }
                m = k;
            }
            k += 1;
        }
        let ghost old_rest = rest@;
        let ghost old_out = out@;
        let x = rest.remove(m);
        out.push(x);
        proof {
            assert(rest@ == old_rest.remove(m as int));
            assert(old_rest.to_multiset().count(x) > 0) by {
                assert(old_rest.contains(x)) by {
                    assert(old_rest[m as int] == x);
                }
            }
            assert(out@.to_multiset().add(rest@.to_multiset()) =~= old_out.to_multiset().add(
                old_rest.to_multiset(),
            ));
            assert forall|i: int, j: int|
                0 <= i < out@.len() && 0 <= j < rest@.len() implies input_le(
                #[trigger] out@[i].input.model(),
                #[trigger] rest@[j].input.model(),
            ) by {
                let jj = if j < m { j } else { j + 1 };
                assert(rest@[j] == old_rest[jj]);
                if i < old_out.len() {
                    assert(out@[i] == old_out[i]);
                }
            }
            assert forall|i: int, j: int| 0 <= i < j < out@.len() implies input_le(
                #[trigger] out@[i].input.model(),
                #[trigger] out@[j].input.model(),
            ) by {
                if j < old_out.len() {
                    assert(out@[i] == old_out[i]);
                    assert(out@[j] == old_out[j]);
                } else {
                    assert(out@[i] == old_out[i]);
                    assert(out@[j] == old_rest[m as int]);
                }
            }
        }
    }
    assert(rest@.to_multiset() =~= Multiset::<InputFacts>::empty());
    assert(out@.to_multiset().add(Multiset::<InputFacts>::empty()) =~= out@.to_multiset());
    out
}


/// Two orderings of the same facts, both by input, are the same sequence.
proof fn lemma_sorted_unique(a: Seq<InputFacts>, b: Seq<InputFacts>)
    requires
        a.to_multiset() == b.to_multiset(),
        sorted_by_input(a),
        sorted_by_input(b),
        facts_follow_input(a),
    ensures
        a == b,
    decreases a.len(),
{
    assert(a.len() == a.to_multiset().len());
    assert(b.len() == b.to_multiset().len());
    if a.len() == 0 {
        assert(a =~= b);
    } else {
        assert(a.to_multiset().count(a[0]) > 0);
        assert(b.contains(a[0]));
        let j = choose|j: int| 0 <= j < b.len() && b[j] == a[0];
        assert(b.to_multiset().count(b[0]) > 0);
        assert(a.contains(b[0]));
        let i = choose|i: int| 0 <= i < a.len() && a[i] == b[0];
        lemma_input_le_facts(a[0].input.model(), b[0].input.model(), a[0].input.model());
        if j > 0 {
            assert(input_le(b[0].input.model(), b[j].input.model()));
        }
        if i > 0 {
            assert(input_le(a[0].input.model(), a[i].input.model()));
        }
        assert(a[i].input.model() == a[0].input.model());
        assert(a[i] == a[0]);
        let x = a[0];
        assert(b[0] == x);
        assert(a.drop_first() =~= a.remove(0));
        assert(b.drop_first() =~= b.remove(0));
        assert(a.drop_first().to_multiset() == a.to_multiset().remove(x));
        assert(b.drop_first().to_multiset() == b.to_multiset().remove(x));
        assert(sorted_by_input(a.drop_first())) by {
            assert forall|p: int, q: int| 0 <= p < q < a.drop_first().len() implies input_le(
                #[trigger] a.drop_first()[p].input.model(),
                #[trigger] a.drop_first()[q].input.model(),
            ) by {
                assert(a.drop_first()[p] == a[p + 1]);
                assert(a.drop_first()[q] == a[q + 1]);
            }
        }
        assert(sorted_by_input(b.drop_first())) by {
            assert forall|p: int, q: int| 0 <= p < q < b.drop_first().len() implies input_le(
                #[trigger] b.drop_first()[p].input.model(),
                #[trigger] b.drop_first()[q].input.model(),
            ) by {
                assert(b.drop_first()[p] == b[p + 1]);
                assert(b.drop_first()[q] == b[q + 1]);
            }
        }
        assert(facts_follow_input(a.drop_first())) by {
            assert forall|p: int, q: int|
                0 <= p < a.drop_first().len() && 0 <= q < a.drop_first().len()
                    && #[trigger] a.drop_first()[p].input.model()
                    == #[trigger] a.drop_first()[q].input.model() implies a.drop_first()[p]
                == a.drop_first()[q] by {
                assert(a.drop_first()[p] == a[p + 1]);
                assert(a.drop_first()[q] == a[q + 1]);
            }
        }
        lemma_sorted_unique(a.drop_first(), b.drop_first());
        assert(a =~= b) by {
            assert forall|k: int| 0 <= k < a.len() implies a[k] == b[k] by {
                if k > 0 {
                    assert(a[k] == a.drop_first()[k - 1]);
                    assert(b[k] == b.drop_first()[k - 1]);
                }
            }
        }
    }
}

/// The plan does not depend on the order in which inputs were given: any two
/// orderings of the same facts, once sorted by input, give the same plan (or
/// the same error).
pub proof fn law_plan_ignores_input_order(
    script: Seq<char>,
    fm: FrontMatter,
    pool: PoolState,
    chown: Seq<char>,
    a: Seq<InputFacts>,
    b: Seq<InputFacts>,
    source: Option<SourceState>,
    new_id: u128,
)
    requires
        a.to_multiset() == b.to_multiset(),
        sorted_by_input(a),
        sorted_by_input(b),
        facts_follow_input(a),
    ensures
        plan_of(script, fm, pool, chown, a, source, new_id) == plan_of(
            script,
            fm,
            pool,
            chown,
            b,
            source,
            new_id,
        ),
{
    lemma_sorted_unique(a, b);
}


/// Whether the facts are in the order of their inputs.
pub fn is_sorted_by_input(facts: &Vec<InputFacts>) -> (r: bool)
    ensures
        r == sorted_by_input(facts@),
{
    if facts.len() == 0 {
        return true;
    }
    let mut i: usize = 1;
    while i < facts.len()
        invariant
            1 <= i <= facts@.len(),
            sorted_by_input(facts@.take(i as int)),
        decreases facts@.len() - i,
    {
        if !input_le_exec(&facts[i - 1].input, &facts[i].input) {
            assert(!sorted_by_input(facts@)) by {
                assert(!input_le(facts@[i - 1].input.model(), facts@[i as int].input.model()));
            }
            return false;
        }
        proof {
            let t = facts@.take(i as int + 1);
            assert forall|p: int, q: int| 0 <= p < q < t.len() implies input_le(
                #[trigger] t[p].input.model(),
                #[trigger] t[q].input.model(),
            ) by {
                if q < i {
                    assert(t[p] == facts@.take(i as int)[p]);
                    assert(t[q] == facts@.take(i as int)[q]);
                } else if p < i - 1 {
                    assert(facts@.take(i as int)[p] == facts@[p]);
                    assert(facts@.take(i as int)[i - 1] == facts@[i - 1]);
                    lemma_input_le_facts(
                        facts@[p].input.model(),
                        facts@[i - 1].input.model(),
                        facts@[i as int].input.model(),
                    );
                }
            }
        }
        i += 1;
    }
    assert(facts@.take(facts@.len() as int) =~= facts@);
    true
}

} // verus!
