//! `gitGraph` parser: commits, branches, checkouts and merges.

use vstd::prelude::*;
use crate::ir::graph::{opt_view, strings_view};
use crate::ir::linear::{GitGraph, GitGraphV, GitOp, GitOpV};
use crate::parser::flowchart::string_is;
use crate::parser::{errs_view, lemma_errs_push, lines_view, ErrV, Line, ParseError};
use crate::text::{
    chars_of, concat, find, find_of, is_whitespace, is_ws, lemma_find, slice_of, split_ws,
    split_ws_of, starts_with, starts_with_of, string_of, strip_prefix, strip_prefix_of, trim,
    trim_of, trim_start, trim_start_of, views,
};

verus! {

/// The quoted value after `key` in `s` (`id: "v0.1"` gives `v0.1`), up to
/// the closing quote or the end of `s`.
pub open spec fn kv_grab(s: Seq<char>, key: Seq<char>) -> Option<Seq<char>> {
    match find(s, key) {
        None => None,
        Some(at) => match strip_prefix(trim_start(s.skip(at + key.len())), "\""@) {
            None => None,
            Some(rest) => match find(rest, "\""@) {
                Some(q) => Some(rest.take(q)),
                None => Some(rest),
            },
        },
    }
}

/// First index at or after `i` whose entry equals `x`.
pub open spec fn first_index(v: Seq<Seq<char>>, x: Seq<char>, i: int) -> Option<int>
    decreases v.len() - i,
{
    if i < 0 || i >= v.len() {
        None
    } else if v[i] == x {
        Some(i)
    } else {
        first_index(v, x, i + 1)
    }
}

/// Index of the first whitespace character.
pub open spec fn first_ws(s: Seq<char>, i: int) -> Option<int>
    decreases s.len() - i,
{
    if i < 0 || i >= s.len() {
        None
    } else if is_ws(s[i]) {
        Some(i)
    } else {
        first_ws(s, i + 1)
    }
}

pub open spec fn git_error(ln: int, line: Seq<char>) -> ErrV {
    ErrV { line: ln, message: "cannot parse gitGraph statement '"@ + line + "'"@ }
}

/// One `gitGraph` statement against the graph so far and the checked-out
/// branch: new graph, new current branch, and the warning if the line is bad.
pub open spec fn git_line(g: GitGraphV, cur: int, ln: int, line: Seq<char>) -> (
    GitGraphV,
    int,
    Option<ErrV>,
) {
    match strip_prefix(line, "commit"@) {
        Some(rest) => (
            GitGraphV {
                ops: g.ops.push(
                    GitOpV::Commit { id: kv_grab(rest, "id:"@), tag: kv_grab(rest, "tag:"@), branch: cur },
                ),
                ..g
            },
            cur,
            None,
        ),
        None => match strip_prefix(line, "branch "@) {
            Some(rest) => {
                let words = split_ws(trim(rest));
                let name = if words.len() > 0 {
                    words[0]
                } else {
                    seq![]
                };
                if name.len() == 0 {
                    (g, cur, Some(git_error(ln, line)))
                } else {
                    (
                        GitGraphV {
                            branches: g.branches.push(name),
                            ops: g.ops.push(GitOpV::Branch { name }),
                        },
                        g.branches.len() as int,
                        None,
                    )
                }
            },
            None => {
                let target = match strip_prefix(line, "checkout "@) {
                    Some(r) => Some(r),
                    None => strip_prefix(line, "switch "@),
                };
                match target {
                    Some(rest) => match first_index(g.branches, trim(rest), 0) {
                        Some(i) => (g, i, None),
                        None => (g, cur, Some(git_error(ln, line))),
                    },
                    None => match strip_prefix(line, "merge "@) {
                        Some(rest) => {
                            let t = trim(rest);
                            let (name, remainder) = match first_ws(t, 0) {
                                Some(k) => (t.take(k), t.skip(k + 1)),
                                None => (t, seq![]),
                            };
                            match first_index(g.branches, name, 0) {
                                Some(from) => (
                                    GitGraphV {
                                        ops: g.ops.push(
                                            GitOpV::Merge {
                                                from_branch: from,
                                                into_branch: cur,
                                                tag: kv_grab(remainder, "tag:"@),
                                            },
                                        ),
                                        ..g
                                    },
                                    cur,
                                    None,
                                ),
                                None => (g, cur, Some(git_error(ln, line))),
                            }
                        },
                        None => if starts_with(line, "cherry-pick"@) {
                            (g, cur, None)
                        } else {
                            (g, cur, Some(git_error(ln, line)))
                        },
                    },
                }
            },
        },
    }
}

/// Graph, current branch and warnings after the first `k` lines.
pub open spec fn git_upto(ls: Seq<(int, Seq<char>)>, k: int) -> (GitGraphV, int, Seq<ErrV>)
    decreases k,
{
    if k <= 0 || k > ls.len() {
        (GitGraphV { branches: seq!["main"@], ops: seq![] }, 0, seq![])
    } else {
        let (g, cur, es) = git_upto(ls, k - 1);
        let (g2, cur2, e) = git_line(g, cur, ls[k - 1].0, ls[k - 1].1);
        (
            g2,
            cur2,
            match e {
                Some(x) => es.push(x),
                None => es,
            },
        )
    }
}

/// Lenient `gitGraph` parse: the graph and one warning per bad line.
pub open spec fn git_spec(ls: Seq<(int, Seq<char>)>) -> (GitGraphV, Seq<ErrV>) {
    let t = git_upto(ls, ls.len() as int);
    (t.0, t.2)
}

fn opt_string(o: Option<Vec<char>>) -> (r: Option<String>)
    ensures
        opt_view(r) == crate::parser::flowchart::ov(o),
{
    match o {
        Some(v) => Some(string_of(&v)),
        None => None,
    }
}

fn kv_grab_of(s: &[char], key: &[char]) -> (r: Option<Vec<char>>)
    ensures
        kv_grab(s@, key@) == crate::parser::flowchart::ov(r),
{
    proof {
        reveal_strlit("\"");
        lemma_find(s@, key@);
    }
    let at = match find_of(s, key) {
        Some(at) => at,
        None => return None,
    };
    assert(at + key.len() <= s.len());
    let after = slice_of(s, at + key.len(), s.len());
    let t = trim_start_of(&after);
    let q = chars_of("\"");
    let rest = match strip_prefix_of(&t, &q) {
        Some(r) => r,
        None => return None,
    };
    proof {
        lemma_find(rest@, "\""@);
    }
    match find_of(&rest, &q) {
        Some(k) => Some(slice_of(&rest, 0, k)),
        None => Some(rest),
    }
}

pub proof fn lemma_first_index(v: Seq<Seq<char>>, x: Seq<char>, i: int)
    requires
        0 <= i,
    ensures
        first_index(v, x, i) is None <==> forall|k: int| i <= k < v.len() ==> v[k] != x,
        first_index(v, x, i) matches Some(k) ==> i <= k < v.len() && v[k] == x,
    decreases v.len() - i,
{
    if i < v.len() {
        lemma_first_index(v, x, i + 1);
    }
}

pub(crate) fn first_index_of(v: &Vec<String>, x: &[char]) -> (r: Option<usize>)
    ensures
        first_index(strings_view(v@), x@, 0) == (match r {
            Some(i) => Some(i as int),
            None => None,
        }),
        r matches Some(i) ==> i < v@.len(),
{
    let mut i: usize = 0;
    while i < v.len()
        invariant
            i <= v@.len(),
            first_index(strings_view(v@), x@, 0) == first_index(strings_view(v@), x@, i as int),
        decreases v@.len() - i,
    {
        if string_is(&v[i], x) {
            return Some(i);
        }
        i += 1;
    }
    None
}

fn first_ws_of(s: &[char]) -> (r: Option<usize>)
    ensures
        first_ws(s@, 0) == (match r {
            Some(i) => Some(i as int),
            None => None,
        }),
        r matches Some(i) ==> i < s@.len(),
{
    let mut i: usize = 0;
    while i < s.len()
        invariant
            i <= s@.len(),
            first_ws(s@, 0) == first_ws(s@, i as int),
        decreases s@.len() - i,
    {
        if is_whitespace(s[i]) {
            return Some(i);
        }
        i += 1;
    }
    None
}

fn git_err(ln: usize, line: &[char]) -> (r: ParseError)
    ensures
        r@ == git_error(ln as int, line@),
{
    let a = concat(&chars_of("cannot parse gitGraph statement '"), line);
    let m = concat(&a, &chars_of("'"));
    ParseError::syntax(ln, &m)
}

/// Parse the lines of a `gitGraph` (after its header).
pub fn parse_git(lines: &Vec<Line>) -> (r: (GitGraph, Vec<ParseError>))
    ensures
        git_spec(lines_view(lines@)) == (r.0@, errs_view(r.1@)),
{
    let ghost ls = lines_view(lines@);
    let mut branches: Vec<String> = Vec::new();
    branches.push(string_of(&chars_of("main")));
    let mut g = GitGraph { branches, ops: Vec::new() };
    let mut cur: usize = 0;
    let mut warnings: Vec<ParseError> = Vec::new();
    let mut i: usize = 0;
    assert(g@.branches =~= seq!["main"@]);
    assert(g@.ops =~= Seq::<GitOpV>::empty());
    while i < lines.len()
        invariant
            i <= lines@.len(),
            ls == lines_view(lines@),
            git_upto(ls, i as int) == (g@, cur as int, errs_view(warnings@)),
            g@.branches.len() == g.branches@.len(),
            cur < g.branches@.len(),
        decreases lines@.len() - i,
    {
        proof {
            reveal_strlit("commit");
            reveal_strlit("branch ");
            reveal_strlit("checkout ");
            reveal_strlit("switch ");
            reveal_strlit("merge ");
            reveal_strlit("cherry-pick");
            reveal_strlit("id:");
            reveal_strlit("tag:");
        }
        let ln = lines[i].0;
        let line = &lines[i].1;
        assert(ls[i as int] == (ln as int, line@));
        let ghost step = git_line(g@, cur as int, ln as int, line@);
        let mut err: Option<ParseError> = None;
        if let Some(rest) = strip_prefix_of(line, &chars_of("commit")) {
            let id = opt_string(kv_grab_of(&rest, &chars_of("id:")));
            let tag = opt_string(kv_grab_of(&rest, &chars_of("tag:")));
            g.ops.push(GitOp::Commit { id, tag, branch: cur });
            assert(g@.ops =~= step.0.ops);
        } else if let Some(rest) = strip_prefix_of(line, &chars_of("branch ")) {
            let words = split_ws_of(&trim_of(&rest));
            if words.len() == 0 || words[0].len() == 0 {
                assert(words@.len() > 0 ==> views(words@)[0] == words@[0]@);
                err = Some(git_err(ln, line));
            } else {
                assert(views(words@)[0] == words@[0]@);
                let name = string_of(&words[0]);
                let name2 = string_of(&words[0]);
                cur = g.branches.len();
                g.branches.push(name);
                g.ops.push(GitOp::Branch { name: name2 });
                assert(g@.ops =~= step.0.ops);
                assert(g@.branches =~= step.0.branches);
            }
        } else {
            let target = match strip_prefix_of(line, &chars_of("checkout ")) {
                Some(r) => Some(r),
                None => strip_prefix_of(line, &chars_of("switch ")),
            };
            match target {
                Some(rest) => {
                    match first_index_of(&g.branches, &trim_of(&rest)) {
                        Some(k) => {
                            cur = k;
                        },
                        None => {
                            err = Some(git_err(ln, line));
                        },
                    }
                },
                None => {
                    if let Some(rest) = strip_prefix_of(line, &chars_of("merge ")) {
                        let t = trim_of(&rest);
                        let (name, remainder) = match first_ws_of(&t) {
                            Some(k) => {
                                assert(k < t.len());
                                (slice_of(&t, 0, k), slice_of(&t, k + 1, t.len()))
                            },
                            None => (slice_of(&t, 0, t.len()), Vec::new()),
                        };
                        assert(t@.subrange(0, t@.len() as int) == t@);
                        assert(remainder@.len() == 0 ==> remainder@ == Seq::<char>::empty());
                        match first_index_of(&g.branches, &name) {
                            Some(from) => {
                                let tag = opt_string(kv_grab_of(&remainder, &chars_of("tag:")));
                                g.ops.push(GitOp::Merge { from_branch: from, into_branch: cur, tag });
                                assert(g@.ops =~= step.0.ops);
                            },
                            None => {
                                err = Some(git_err(ln, line));
                            },
                        }
                    } else if !starts_with_of(line, &chars_of("cherry-pick")) {
                        err = Some(git_err(ln, line));
                    }
                },
            }
        }
        match err {
            Some(e) => {
                proof {
                    lemma_errs_push(warnings@, e);
                }
                warnings.push(e);
            },
            None => {},
        }
        i += 1;
    }
    (g, warnings)
}

/// The statements only name existing branches, there is at least one
/// branch, and the checked-out branch exists.
pub open spec fn git_consistent(g: GitGraphV, cur: int) -> bool {
    &&& g.branches.len() > 0
    &&& 0 <= cur < g.branches.len()
    &&& forall|i: int|
        0 <= i < g.ops.len() ==> match #[trigger] g.ops[i] {
            GitOpV::Commit { branch, .. } => 0 <= branch < g.branches.len(),
            GitOpV::Merge { from_branch, into_branch, .. } => 0 <= from_branch < g.branches.len()
                && 0 <= into_branch < g.branches.len(),
            GitOpV::Branch { .. } => true,
        }
}

proof fn lemma_git_consistent(ls: Seq<(int, Seq<char>)>, k: int)
    requires
        0 <= k <= ls.len(),
    ensures
        git_consistent(git_upto(ls, k).0, git_upto(ls, k).1),
    decreases k,
{
    if k > 0 {
        lemma_git_consistent(ls, k - 1);
        let (g, cur, es) = git_upto(ls, k - 1);
        let line = ls[k - 1].1;
        match strip_prefix(line, "checkout "@) {
            Some(r) => {
                lemma_first_index(g.branches, trim(r), 0);
            },
            None => match strip_prefix(line, "switch "@) {
                Some(r) => {
                    lemma_first_index(g.branches, trim(r), 0);
                },
                None => {},
            },
        }
        match strip_prefix(line, "merge "@) {
            Some(rest) => {
                let t = trim(rest);
                let (name, remainder) = match first_ws(t, 0) {
                    Some(j) => (t.take(j), t.skip(j + 1)),
                    None => (t, seq![]),
                };
                lemma_first_index(g.branches, name, 0);
            },
            None => {},
        }
        let (g2, cur2, e) = git_line(g, cur, ls[k - 1].0, line);
        assert(git_consistent(g2, cur2));
    } else {
        reveal_strlit("main");
    }
}

/// A parsed git graph only refers to branches it declares: every commit's
/// lane and every merge's source and target are existing branches, and
/// `main` always exists. (The git renderer indexes lanes by these numbers.)
pub proof fn law_git_refs_valid(ls: Seq<(int, Seq<char>)>)
    ensures
        git_consistent(git_spec(ls).0, git_upto(ls, ls.len() as int).1),
{
    lemma_git_consistent(ls, ls.len() as int);
}

} // verus!
