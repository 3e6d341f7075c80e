use buildomat_at_home::input::Input;

#[test]
fn test_from_str() {
    assert_eq!(
        "local/01H3WX25SMVQ9YEDXDDC832VCV".parse::<Input>().unwrap(),
        Input::LocalBuild {
            id: ulid::Ulid::from_string("01H3WX25SMVQ9YEDXDDC832VCV").unwrap().0
        }
    );

    let input = Input::GitHubRun {
        owner: "oxidecomputer".into(),
        repo: "omicron".into(),
        run_id: "14561963408".into(),
    };
    assert_eq!(input.to_string().parse::<Input>().unwrap(), input);
    assert_eq!(
        "https://github.com/oxidecomputer/omicron/runs/14561963408"
            .parse::<Input>()
            .unwrap(),
        input
    );
}

fn run(owner: &str, repo: &str, run_id: &str) -> Input {
    Input::GitHubRun { owner: owner.into(), repo: repo.into(), run_id: run_id.into() }
}

#[test]
fn local_build_round_trips() {
    for id in [0u128, 1, 0x0188_3a5e_4c2b_4f1d_9e2a_0b6c_7d8e_9f00, u128::MAX] {
        let x = Input::LocalBuild { id };
        let text = x.to_string();
        assert!(text.starts_with("local/"));
        assert_eq!(text.len(), "local/".len() + 26);
        assert_eq!(Input::parse(&text), Ok(x));
    }
}

#[test]
fn local_build_text_is_ulid() {
    let x = Input::LocalBuild { id: 1 };
    assert_eq!(x.to_string(), "local/00000000000000000000000001");
}

#[test]
fn remote_run_canonical_text() {
    assert_eq!(run("o", "r", "7").to_string(), "github/o/r/7");
}

#[test]
fn remote_run_aliases() {
    let want = run("oxidecomputer", "omicron", "42");
    for text in [
        "github/oxidecomputer/omicron/42",
        "github.com/oxidecomputer/omicron/42",
        "https://github/oxidecomputer/omicron/42",
        "https://github.com/oxidecomputer/omicron/runs/42",
        "github/oxidecomputer/omicron/runs/42",
    ] {
        assert_eq!(Input::parse(text), Ok(want.clone()), "{}", text);
    }
    assert_eq!(Input::parse("github/o/r/runs"), Ok(run("o", "r", "runs")));
}

#[test]
fn rejected_texts() {
    for text in [
        "",
        "local/",
        "local/not-a-ulid",
        "github/o/r",
        "github/o//1",
        "github/o/r/1/2",
        "github/o/r/x/1",
        "http://github.com/o/r/1",
        "gitlab/o/r/1",
        "github.comx/o/r/1",
    ] {
        assert!(Input::parse(text).is_err(), "{}", text);
    }
}

#[test]
fn ordering_local_before_remote() {
    let mut v = vec![run("b", "r", "1"), Input::LocalBuild { id: 9 }, run("a", "r", "2"), Input::LocalBuild { id: 3 }];
    v.sort();
    assert_eq!(
        v,
        vec![Input::LocalBuild { id: 3 }, Input::LocalBuild { id: 9 }, run("a", "r", "2"), run("b", "r", "1")]
    );
}
