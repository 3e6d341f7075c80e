use buildomat_at_home::input::Input;
use buildomat_at_home::order::{input_le_exec, sort_facts};
use buildomat_at_home::plan::InputFacts;

fn run(owner: &str, repo: &str, run_id: &str) -> Input {
    Input::GitHubRun { owner: owner.into(), repo: repo.into(), run_id: run_id.into() }
}

fn facts(input: Input) -> InputFacts {
    InputFacts { input, job_name: None, dataset_exists: false, readonly_off: false, artefacts: vec![] }
}

#[test]
fn comparison_agrees_with_derived_order() {
    let all = vec![
        Input::LocalBuild { id: 1 },
        Input::LocalBuild { id: 2 },
        run("a", "r", "1"),
        run("a", "r", "10"),
        run("a", "r", "2"),
        run("a", "s", "0"),
        run("ab", "a", "0"),
        run("b", "a", "0"),
        run("é", "a", "0"),
    ];
    for x in &all {
        for y in &all {
            assert_eq!(input_le_exec(x, y), x <= y, "{:?} {:?}", x, y);
        }
    }
}

#[test]
fn sort_orders_and_keeps_every_fact() {
    let given = vec![
        facts(run("b", "a", "0")),
        facts(Input::LocalBuild { id: 9 }),
        facts(run("a", "r", "2")),
        facts(Input::LocalBuild { id: 3 }),
        facts(run("a", "r", "10")),
    ];
    let sorted: Vec<Input> = sort_facts(given).into_iter().map(|f| f.input).collect();
    assert_eq!(
        sorted,
        vec![
            Input::LocalBuild { id: 3 },
            Input::LocalBuild { id: 9 },
            run("a", "r", "10"),
            run("a", "r", "2"),
            run("b", "a", "0"),
        ]
    );
    assert!(sort_facts(vec![]).is_empty());
}
