use vstd::prelude::*;
use vstd::string::*;

verus! {

/// A reference to the captured output of an earlier job.
#[derive(Debug, Clone, PartialEq, Eq, PartialOrd, Ord, Hash)]
pub enum Input {
    /// A build captured on this machine, named by the value of its ULID.
    LocalBuild { id: u128 },
    /// A check run of a remote repository.
    GitHubRun { owner: String, repo: String, run_id: String },
}

/// The reason a text is not an input reference.
#[derive(Debug, Clone, Copy, PartialEq, Eq)]
pub enum InputParseError {
    NotAnInput,
}

/// The mathematical value of an [`Input`].
pub ghost enum InputModel {
    LocalBuild { id: u128 },
    GitHubRun { owner: Seq<char>, repo: Seq<char>, run_id: Seq<char> },
}

/// What `ulid::Ulid` prints for a value.
pub uninterp spec fn ulid_text_of(id: u128) -> Seq<char>;

/// What `ulid::Ulid::from_string` reads from a text, if anything.
pub uninterp spec fn ulid_value_of(s: Seq<char>) -> Option<u128>;

/// Relies on ulid's `Display` (`Ulid::to_string`): the canonical text of 26
/// Crockford base-32 digits, which `Ulid::from_string` decodes back to the
/// same value.
#[verifier::external_body]
fn ulid_to_text(id: u128) -> (r: String)
    ensures
        r@ == ulid_text_of(id),
        r@.len() == 26,
        ulid_value_of(r@) == Some(id),
{
    ulid::Ulid(id).to_string()
}

/// Relies on `ulid::Ulid::from_string`: the value a text decodes to, or none;
/// only a text of 26 ASCII characters decodes.
#[verifier::external_body]
fn ulid_from_text(s: &str) -> (r: Option<u128>)
    ensures
        r == ulid_value_of(s@),
        s@.len() != 26 ==> r is None,
{
    ulid::Ulid::from_string(s).ok().map(|u| u.0)
}

pub open spec fn local_prefix() -> Seq<char> {
    seq!['l', 'o', 'c', 'a', 'l', '/']
}

pub open spec fn github_prefix() -> Seq<char> {
    seq!['g', 'i', 't', 'h', 'u', 'b', '/']
}

pub open spec fn github_com_prefix() -> Seq<char> {
    seq!['g', 'i', 't', 'h', 'u', 'b', '.', 'c', 'o', 'm', '/']
}

pub open spec fn https_prefix() -> Seq<char> {
    seq!['h', 't', 't', 'p', 's', ':', '/', '/']
}

pub open spec fn runs_segment() -> Seq<char> {
    seq!['r', 'u', 'n', 's']
}

pub open spec fn slash() -> Seq<char> {
    seq!['/']
}

pub open spec fn starts_with(s: Seq<char>, p: Seq<char>) -> bool {
    p.len() <= s.len() && s.subrange(0, p.len() as int) == p
}

pub open spec fn no_slash(s: Seq<char>) -> bool {
    forall|i: int| 0 <= i < s.len() ==> s[i] != '/'
}

/// A text cut at every `c`: cutting `"a/b/"` at `/` gives `["a", "b", ""]`.
pub open spec fn split_on(s: Seq<char>, c: char) -> Seq<Seq<char>>
    decreases s.len(),
{
    if s.len() == 0 {
        seq![Seq::<char>::empty()]
    } else {
        let prev = split_on(s.drop_last(), c);
        if s.last() == c {
            prev.push(Seq::<char>::empty())
        } else {
            prev.update(prev.len() - 1, prev.last().push(s.last()))
        }
    }
}

pub open spec fn split_slash(s: Seq<char>) -> Seq<Seq<char>> {
    split_on(s, '/')
}

/// Owner, repository and run of `<owner>/<repo>/[runs/]<run_id>`, each part
/// non-empty and free of `/`.
pub open spec fn github_fields(r: Seq<char>) -> Option<InputModel> {
    let segs = split_slash(r);
    if segs.len() == 3 && segs[0].len() > 0 && segs[1].len() > 0 && segs[2].len() > 0 {
        Some(InputModel::GitHubRun { owner: segs[0], repo: segs[1], run_id: segs[2] })
    } else if segs.len() == 4 && segs[2] == runs_segment() && segs[0].len() > 0
        && segs[1].len() > 0 && segs[3].len() > 0 {
        Some(InputModel::GitHubRun { owner: segs[0], repo: segs[1], run_id: segs[3] })
    } else {
        None
    }
}

/// The input a text denotes: `local/<ulid>`, or
/// `[https://]github[.com]/<owner>/<repo>/[runs/]<run_id>`.
pub open spec fn parse_model(s: Seq<char>) -> Option<InputModel> {
    if starts_with(s, local_prefix()) {
        match ulid_value_of(s.subrange(6, s.len() as int)) {
            Some(id) => Some(InputModel::LocalBuild { id }),
            None => None,
        }
    } else {
        let t = if starts_with(s, https_prefix()) {
            s.subrange(8, s.len() as int)
        } else {
            s
        };
        if starts_with(t, github_com_prefix()) {
            github_fields(t.subrange(11, t.len() as int))
        } else if starts_with(t, github_prefix()) {
            github_fields(t.subrange(7, t.len() as int))
        } else {
            None
        }
    }
}

/// The canonical text of an input.
pub open spec fn text_of(m: InputModel) -> Seq<char> {
    match m {
        InputModel::LocalBuild { id } => local_prefix() + ulid_text_of(id),
        InputModel::GitHubRun { owner, repo, run_id } => github_prefix() + owner + slash() + repo
            + slash() + run_id,
    }
}

impl Input {
    pub open spec fn model(&self) -> InputModel {
        match self {
            Input::LocalBuild { id } => InputModel::LocalBuild { id: *id },
            Input::GitHubRun { owner, repo, run_id } => InputModel::GitHubRun {
                owner: owner@,
                repo: repo@,
                run_id: run_id@,
            },
        }
    }

    /// A remote run's parts are non-empty and hold no `/`.
    pub open spec fn wf(&self) -> bool {
        match self {
            Input::LocalBuild { .. } => true,
            Input::GitHubRun { owner, repo, run_id } => owner@.len() > 0 && no_slash(owner@)
                && repo@.len() > 0 && no_slash(repo@) && run_id@.len() > 0 && no_slash(run_id@),
        }
    }
}


pub proof fn lemma_split_on_nonempty(s: Seq<char>, c: char)
    ensures
        split_on(s, c).len() >= 1,
    decreases s.len(),
{
    if s.len() > 0 {
        lemma_split_on_nonempty(s.drop_last(), c);
    }
}

/// A text without `/` is a single part.
proof fn lemma_split_slash_single(s: Seq<char>)
    requires
        no_slash(s),
    ensures
        split_slash(s) == seq![s],
    decreases s.len(),
{
    if s.len() > 0 {
        assert(no_slash(s.drop_last())) by {
            assert forall|i: int| 0 <= i < s.drop_last().len() implies s.drop_last()[i] != '/' by {
                assert(s.drop_last()[i] == s[i]);
            }
        }
        assert(s[s.len() - 1] != '/');
        lemma_split_slash_single(s.drop_last());
        assert(s.drop_last().push(s.last()) =~= s);
        assert(seq![s.drop_last()].update(0, s) =~= seq![s]);
    } else {
        assert(s =~= Seq::<char>::empty());
    }
}

/// Cutting `a/b` gives the parts of `a` followed by those of `b`.
proof fn lemma_split_slash_join(a: Seq<char>, b: Seq<char>)
    ensures
        split_slash(a + slash() + b) == split_slash(a) + split_slash(b),
    decreases b.len(),
{
    let s = a + slash() + b;
    lemma_split_on_nonempty(a, '/');
    if b.len() == 0 {
        assert(s.drop_last() =~= a);
        assert(split_slash(a).push(Seq::<char>::empty()) =~= split_slash(a) + seq![
            Seq::<char>::empty(),
        ]);
        assert(s =~= a + slash());
    } else {
        lemma_split_slash_join(a, b.drop_last());
        lemma_split_on_nonempty(b.drop_last(), '/');
        assert(s.drop_last() =~= a + slash() + b.drop_last());
        assert(s.last() == b.last());
        let pa = split_slash(a);
        let pb = split_slash(b.drop_last());
        if b.last() == '/' {
            assert((pa + pb).push(Seq::<char>::empty()) =~= pa + pb.push(Seq::<char>::empty()));
        } else {
            assert((pa + pb).update((pa + pb).len() - 1, (pa + pb).last().push(b.last())) =~= pa
                + pb.update(pb.len() - 1, pb.last().push(b.last())));
        }
    }
}

/// Whether `s` begins with `p`.
pub(crate) fn has_prefix(s: &str, p: &str) -> (r: bool)
    ensures
        r == starts_with(s@, p@),
{
    let n = s.unicode_len();
    let m = p.unicode_len();
    if m > n {
        return false;
    }
    let mut i: usize = 0;
    while i < m
        invariant
            n == s@.len(),
            m == p@.len(),
            m <= n,
            i <= m,
            forall|j: int| 0 <= j < i ==> s@[j] == p@[j],
        decreases m - i,
    {
        if s.get_char(i) != p.get_char(i) {
            assert(s@.subrange(0, m as int)[i as int] != p@[i as int]);
            return false;
        }
        i += 1;
    }
    assert(s@.subrange(0, m as int) =~= p@);
    true
}

/// The parts of `s` between its `c` characters, in order.
pub(crate) fn split_on_char(s: &str, sep: char) -> (r: Vec<String>)
    ensures
        r@.map_values(|x: String| x@) == split_on(s@, sep),
{
    let n = s.unicode_len();
    let mut segs: Vec<String> = Vec::new();
    let mut start: usize = 0;
    let mut i: usize = 0;
    assert(s@.subrange(0, 0) =~= Seq::<char>::empty());
    assert(segs@.map_values(|x: String| x@).push(s@.subrange(0, 0)) =~= seq![
        Seq::<char>::empty(),
    ]);
    while i < n
        invariant
            n == s@.len(),
            start <= i <= n,
            segs@.map_values(|x: String| x@).push(s@.subrange(start as int, i as int))
                == split_on(s@.subrange(0, i as int), sep),
        decreases n - i,
    {
        let c = s.get_char(i);
        let ghost prev = segs@.map_values(|x: String| x@);
        let ghost cur = s@.subrange(0, i as int + 1);
        assert(cur.drop_last() =~= s@.subrange(0, i as int));
        assert(cur.last() == c);
        if c == sep {
            let part = s.substring_char(start, i).to_owned();
            segs.push(part);
            start = i + 1;
            assert(segs@.map_values(|x: String| x@) =~= prev.push(part@));
            assert(s@.subrange(start as int, i as int + 1) =~= Seq::<char>::empty());
        } else {
            assert(s@.subrange(start as int, i as int + 1) =~= s@.subrange(start as int, i as int).push(c));
            assert(prev.push(s@.subrange(start as int, i as int + 1)) =~= prev.push(
                s@.subrange(start as int, i as int),
            ).update(prev.len() as int, s@.subrange(start as int, i as int).push(c)));
        }
        i += 1;
    }
    let last = s.substring_char(start, n).to_owned();
    let ghost prev = segs@.map_values(|x: String| x@);
    segs.push(last);
    assert(segs@.map_values(|x: String| x@) =~= prev.push(last@));
    assert(s@.subrange(0, n as int) =~= s@);
    segs
}


/// Every part of a cut text is free of `/`.
proof fn lemma_split_slash_parts(s: Seq<char>)
    ensures
        forall|k: int| 0 <= k < split_slash(s).len() ==> no_slash(#[trigger] split_slash(s)[k]),
    decreases s.len(),
{
    if s.len() > 0 {
        lemma_split_slash_parts(s.drop_last());
        lemma_split_on_nonempty(s.drop_last(), '/');
        let prev = split_slash(s.drop_last());
        if s.last() != '/' {
            assert forall|k: int| 0 <= k < split_slash(s).len() implies no_slash(
                #[trigger] split_slash(s)[k],
            ) by {
                if k == prev.len() - 1 {
                    let x = prev.last().push(s.last());
                    assert(no_slash(prev[k]));
                    assert forall|i: int| 0 <= i < x.len() implies x[i] != '/' by {
                        if i < x.len() - 1 {
                            assert(x[i] == prev[k][i]);
                        }
                    }
                }
            }
        } else {
            assert forall|k: int| 0 <= k < split_slash(s).len() implies no_slash(
                #[trigger] split_slash(s)[k],
            ) by {
                if k < prev.len() {
                    assert(split_slash(s)[k] == prev[k]);
                } else {
                    assert(split_slash(s)[k] =~= Seq::<char>::empty());
                }
            }
        }
    }
}

/// The remote run named by `<owner>/<repo>/[runs/]<run_id>`.
fn github_run(r: &str) -> (res: Result<Input, InputParseError>)
    ensures
        match res {
            Ok(x) => github_fields(r@) == Some(x.model()) && x.wf(),
            Err(_) => github_fields(r@) is None,
        },
{
    let segs = split_on_char(r, '/');
    proof {
        reveal_strlit("runs");
        assert("runs"@ =~= runs_segment());
        lemma_split_slash_parts(r@);
        assert(segs@.len() == split_slash(r@).len());
        assert forall|k: int| 0 <= k < segs@.len() implies #[trigger] segs@[k]@ == split_slash(
            r@,
        )[k] by {
            assert(segs@.map_values(|x: String| x@)[k] == segs@[k]@);
        }
    }
    if segs.len() == 3 && segs[0].unicode_len() > 0 && segs[1].unicode_len() > 0
        && segs[2].unicode_len() > 0 {
        proof {
            assert(no_slash(split_slash(r@)[0]));
            assert(no_slash(split_slash(r@)[1]));
            assert(no_slash(split_slash(r@)[2]));
        }
        return Ok(
            Input::GitHubRun {
                owner: segs[0].clone(),
                repo: segs[1].clone(),
                run_id: segs[2].clone(),
            },
        );
    }
    if segs.len() == 4 && segs[0].unicode_len() > 0 && segs[1].unicode_len() > 0
        && segs[3].unicode_len() > 0 {
        let runs = segs[2].unicode_len() == 4 && has_prefix(segs[2].as_str(), "runs");
        proof {
            if segs@[2]@.len() == 4 {
                assert(segs@[2]@.subrange(0, 4) =~= segs@[2]@);
            }
            assert(no_slash(split_slash(r@)[0]));
            assert(no_slash(split_slash(r@)[1]));
            assert(no_slash(split_slash(r@)[3]));
        }
        if runs {
            return Ok(
                Input::GitHubRun {
                    owner: segs[0].clone(),
                    repo: segs[1].clone(),
                    run_id: segs[3].clone(),
                },
            );
        }
    }
    Err(InputParseError::NotAnInput)
}

impl Input {
    /// Reads `local/<ulid>` or `[https://]github[.com]/<owner>/<repo>/[runs/]<run_id>`.
    pub fn parse(s: &str) -> (r: Result<Input, InputParseError>)
        ensures
            match r {
                Ok(x) => parse_model(s@) == Some(x.model()) && x.wf(),
                Err(_) => parse_model(s@) is None,
            },
    {
        proof {
            reveal_strlit("local/");
            reveal_strlit("https://");
            reveal_strlit("github.com/");
            reveal_strlit("github/");
            assert("local/"@ =~= local_prefix());
            assert("https://"@ =~= https_prefix());
            assert("github.com/"@ =~= github_com_prefix());
            assert("github/"@ =~= github_prefix());
        }
        let n = s.unicode_len();
        if has_prefix(s, "local/") {
            return match ulid_from_text(s.substring_char(6, n)) {
                Some(id) => Ok(Input::LocalBuild { id }),
                None => Err(InputParseError::NotAnInput),
            };
        }
        let t = if has_prefix(s, "https://") {
            s.substring_char(8, n)
        } else {
            s
        };
        let tn = t.unicode_len();
        if has_prefix(t, "github.com/") {
            github_run(t.substring_char(11, tn))
        } else if has_prefix(t, "github/") {
            github_run(t.substring_char(7, tn))
        } else {
            Err(InputParseError::NotAnInput)
        }
    }

    /// The canonical text, which [`Input::parse`] reads back to the same input.
    pub fn to_string(&self) -> (r: String)
        ensures
            r@ == text_of(self.model()),
            self.wf() ==> parse_model(r@) == Some(self.model()),
    {
        proof {
            reveal_strlit("local/");
            reveal_strlit("github/");
            reveal_strlit("/");
            assert("local/"@ =~= local_prefix());
            assert("github/"@ =~= github_prefix());
            assert("/"@ =~= slash());
        }
        match self {
            Input::LocalBuild { id } => {
                let u = ulid_to_text(*id);
                let mut t = "local/".to_owned();
                t.append(u.as_str());
                proof {
                    assert(t@.subrange(0, 6) =~= local_prefix());
                    assert(t@.subrange(6, t@.len() as int) =~= u@);
                }
                t
            },
            Input::GitHubRun { owner, repo, run_id } => {
                let mut t = "github/".to_owned();
                t.append(owner.as_str());
                t.append("/");
                t.append(repo.as_str());
                t.append("/");
                t.append(run_id.as_str());
                proof {
                    let rest = owner@ + slash() + repo@ + slash() + run_id@;
                    assert(t@ =~= github_prefix() + rest);
                    assert(t@[0] == 'g');
                    assert(!starts_with(t@, local_prefix())) by {
                        assert(t@.subrange(0, 6)[0] != local_prefix()[0]);
                    }
                    assert(!starts_with(t@, https_prefix())) by {
                        if https_prefix().len() <= t@.len() {
                            assert(t@.subrange(0, 8)[0] != https_prefix()[0]);
                        }
                    }
                    assert(!starts_with(t@, github_com_prefix())) by {
                        if github_com_prefix().len() <= t@.len() {
                            assert(t@.subrange(0, 11)[6] != github_com_prefix()[6]);
                        }
                    }
                    assert(t@.subrange(0, 7) =~= github_prefix());
                    assert(t@.subrange(7, t@.len() as int) =~= rest);
                    if self.wf() {
                        lemma_split_slash_join(owner@ + slash() + repo@, run_id@);
                        lemma_split_slash_join(owner@, repo@);
                        lemma_split_slash_single(owner@);
                        lemma_split_slash_single(repo@);
                        lemma_split_slash_single(run_id@);
                        assert(split_slash(rest) =~= seq![owner@, repo@, run_id@]);
                    }
                }
                t
            },
        }
    }
}

impl Input {
    /// A copy of this input.
    pub fn duplicate(&self) -> (r: Input)
        ensures
            r.model() == self.model(),
            r.wf() == self.wf(),
    {
        match self {
            Input::LocalBuild { id } => Input::LocalBuild { id: *id },
            Input::GitHubRun { owner, repo, run_id } => Input::GitHubRun {
                owner: owner.clone(),
                repo: repo.clone(),
                run_id: run_id.clone(),
            },
        }
    }
}

impl std::str::FromStr for Input {
    type Err = InputParseError;

    fn from_str(s: &str) -> Result<Input, InputParseError> {
        Input::parse(s)
    }
}


/// Whether two texts are equal.
pub(crate) fn same_text(a: &str, b: &str) -> (r: bool)
    ensures
        r == (a@ == b@),
{
    if a.unicode_len() != b.unicode_len() {
        return false;
    }
    let r = has_prefix(a, b);
    proof {
        assert(a@.subrange(0, b@.len() as int) =~= a@);
    }
    r
}

} // verus!
