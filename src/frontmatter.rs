use crate::command::strings_view;
use crate::input::{has_prefix, split_on, split_on_char, starts_with};
use crate::step::{concat, push_str};
use vstd::prelude::*;
use vstd::string::*;

verus! {

pub open spec fn mark() -> Seq<char> {
    seq!['#', ':']
}

/// A line without its `\r` ending.
pub open spec fn strip_cr(l: Seq<char>) -> Seq<char> {
    if l.len() > 0 && l.last() == '\r' {
        l.drop_last()
    } else {
        l
    }
}

/// The lines of a text: cut at `\n`, without `\r` endings, and without an
/// empty last line.
pub open spec fn lines_of(s: Seq<char>) -> Seq<Seq<char>> {
    let p = split_on(s, '\n');
    let q = if p.last().len() == 0 {
        p.drop_last()
    } else {
        p
    };
    q.map_values(|l: Seq<char>| strip_cr(l))
}

/// How many lines at the start are comments.
pub open spec fn header_len(ls: Seq<Seq<char>>) -> nat
    decreases ls.len(),
{
    if ls.len() == 0 || !starts_with(ls[0], seq!['#']) {
        0
    } else {
        1 + header_len(ls.drop_first())
    }
}

/// A line without every `#:` at its start.
pub open spec fn trim_marks(l: Seq<char>) -> Seq<char>
    decreases l.len(),
{
    if starts_with(l, mark()) {
        trim_marks(l.subrange(2, l.len() as int))
    } else {
        l
    }
}

/// The `#:` lines, without their marks.
pub open spec fn marked(ls: Seq<Seq<char>>) -> Seq<Seq<char>>
    decreases ls.len(),
{
    if ls.len() == 0 {
        Seq::empty()
    } else {
        let r = marked(ls.drop_last());
        if starts_with(ls.last(), mark()) {
            r.push(trim_marks(ls.last()))
        } else {
            r
        }
    }
}

/// Lines joined by `\n`.
pub open spec fn join_lines(ls: Seq<Seq<char>>) -> Seq<char>
    decreases ls.len(),
{
    if ls.len() == 0 {
        Seq::empty()
    } else if ls.len() == 1 {
        ls[0]
    } else {
        join_lines(ls.drop_last()) + seq!['\n'] + ls.last()
    }
}

/// The front matter of a job script: among the comment lines at its head,
/// those that start with `#:`, without that mark, joined by `\n`.
pub open spec fn frontmatter_of(script: Seq<char>) -> Seq<char> {
    let ls = lines_of(script);
    join_lines(marked(ls.take(header_len(ls) as int)))
}

pub(crate) fn text_lines(s: &str) -> (r: Vec<String>)
    ensures
        strings_view(r@) == lines_of(s@),
{
    let parts = split_on_char(s, '\n');
    let ghost p = split_on(s@, '\n');
    proof {
        assert(strings_view(parts@) == p);
        crate::input::lemma_split_on_nonempty(s@, '\n');
    }
    let mut n = parts.len();
    if parts[n - 1].unicode_len() == 0 {
        n = n - 1;
    }
    let ghost q = p.take(n as int);
    assert(q =~= (if p.last().len() == 0 {
        p.drop_last()
    } else {
        p
    }));
    let mut r: Vec<String> = Vec::new();
    let mut i: usize = 0;
    while i < n
        invariant
            i <= n <= parts@.len(),
            q == p.take(n as int),
            p == strings_view(parts@),
            strings_view(r@) == q.take(i as int).map_values(|l: Seq<char>| strip_cr(l)),
        decreases n - i,
    {
        let l = parts[i].as_str();
        let m = l.unicode_len();
        let line = if m > 0 && l.get_char(m - 1) == '\r' {
            l.substring_char(0, m - 1).to_owned()
        } else {
            l.to_owned()
        };
        proof {
            assert(p[i as int] == l@);
            if m > 0 {
                assert(l@.drop_last() =~= l@.subrange(0, m - 1));
            }
        }
        let ghost before = r@;
        r.push(line);
        assert(strings_view(r@) =~= strings_view(before).push(strip_cr(q[i as int])));
        assert(q.take(i as int + 1).map_values(|l: Seq<char>| strip_cr(l)) =~= q.take(
            i as int,
        ).map_values(|l: Seq<char>| strip_cr(l)).push(strip_cr(q[i as int])));
        i += 1;
    }
    assert(q.take(n as int) =~= q);
    r
}

/// A line without every `#:` at its start.
fn trim_line(l: &str) -> (r: String)
    ensures
        r@ == trim_marks(l@),
{
    proof {
        reveal_strlit("#:");
        assert("#:"@ =~= mark());
    }
    let mut cur = l;
    while has_prefix(cur, "#:")
        invariant
            trim_marks(cur@) == trim_marks(l@),
            "#:"@ == mark(),
        decreases cur@.len(),
    {
        let n = cur.unicode_len();
        cur = cur.substring_char(2, n);
    }
    cur.to_owned()
}

/// The front matter of a job script: among the comment lines at its head,
/// those that start with `#:`, without that mark, joined by `\n`.
pub fn frontmatter_text(script: &str) -> (r: String)
    ensures
        r@ == frontmatter_of(script@),
{
    proof {
        reveal_strlit("#");
        reveal_strlit("#:");
        assert("#"@ =~= seq!['#']);
        assert("#:"@ =~= mark());
    }
    let ls = text_lines(script);
    let ghost lv = strings_view(ls@);
    let mut k: usize = 0;
    assert(lv.skip(0) =~= lv);
    while k < ls.len() && has_prefix(ls[k].as_str(), "#")
        invariant
            k <= ls@.len(),
            lv == strings_view(ls@),
            "#"@ == seq!['#'],
            header_len(lv) == k + header_len(lv.skip(k as int)),
        decreases ls@.len() - k,
    {
        assert(lv.skip(k as int)[0] == lv[k as int]);
        assert(lv.skip(k as int).drop_first() =~= lv.skip(k as int + 1));
        k += 1;
    }
    if k < ls.len() {
        assert(lv.skip(k as int)[0] == lv[k as int]);
    }
    let mut kept: Vec<String> = Vec::new();
    let mut i: usize = 0;
    while i < k
        invariant
            i <= k <= ls@.len(),
            lv == strings_view(ls@),
            header_len(lv) == k,
            "#:"@ == mark(),
            strings_view(kept@) == marked(lv.take(i as int)),
        decreases k - i,
    {
        assert(lv.take(i as int + 1).drop_last() =~= lv.take(i as int));
        assert(lv.take(i as int + 1).last() == lv[i as int]);
        if has_prefix(ls[i].as_str(), "#:") {
            let t = trim_line(ls[i].as_str());
            push_str(&mut kept, t.as_str());
        }
        i += 1;
    }
    let ghost kv = strings_view(kept@);
    if kept.len() == 0 {
        assert(lv.take(k as int).len() == k);
        return String::new();
    }
    let mut out = kept[0].clone();
    let mut j: usize = 1;
    assert(kv.take(1).drop_last().len() == 0);
    while j < kept.len()
        invariant
            1 <= j <= kept@.len(),
            kv == strings_view(kept@),
            out@ == join_lines(kv.take(j as int)),
        decreases kept@.len() - j,
    {
        assert(kv.take(j as int + 1).drop_last() =~= kv.take(j as int));
        out.append("\n");
        out.append(kept[j].as_str());
        proof {
            reveal_strlit("\n");
            assert(out@ =~= join_lines(kv.take(j as int + 1)));
        }
        j += 1;
    }
    assert(kv.take(kept@.len() as int) =~= kv);
    out
}

} // verus!
