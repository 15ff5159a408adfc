//! Profile discovery along the directory ancestry.
//!
//! Directories are `/`-separated paths. The chain builder walks from a
//! starting directory up to the filesystem root, collecting every readable
//! configuration file found, nearest first. The filesystem is handed in as a
//! plain value — a listing of the directories that hold a readable
//! configuration file together with each file's content — so the walk is
//! deterministic and testable; directories whose file is missing or
//! unreadable are simply absent from the listing.

use vstd::prelude::*;
use crate::profile::{
    joined, lines_of, loaded_profile, names_of, parse_entries, parse_profile, Profile,
};

verus! {

/// Index of the last occurrence of the character `c` in `s`; `-1` when none.
pub open spec fn last_index_of(s: Seq<char>, c: char) -> int
    decreases s.len(),
{
    if s.len() == 0 {
        -1
    } else if s.last() == c {
        s.len() - 1
    } else {
        last_index_of(s.drop_last(), c)
    }
}

/// `last_index_of` stays within the text.
pub proof fn lemma_last_index_of(s: Seq<char>, c: char)
    ensures
        -1 <= last_index_of(s, c) < s.len(),
    decreases s.len(),
{
    if s.len() > 0 && s.last() != c {
        lemma_last_index_of(s.drop_last(), c);
    }
}

/// The parent directory of a `/`-separated path: the text before the last
/// `/`, the root `/` when that slash comes first, and nothing for the root
/// itself or for a path without any `/`. Only `/` separates: a path in
/// another style (a Windows drive path with `\`) has no recognized parent,
/// so the ancestor walk stays at its starting directory.
pub open spec fn parent_of(path: Seq<char>) -> Option<Seq<char>> {
    let j = last_index_of(path, '/');
    if j < 0 {
        None
    } else if j == 0 {
        if path.len() == 1 {
            None
        } else {
            Some(seq!['/'])
        }
    } else {
        Some(path.subrange(0, j))
    }
}

/// A parent directory is shorter than the path and never empty.
pub proof fn lemma_parent_of_shorter(path: Seq<char>)
    ensures
        match parent_of(path) {
            Some(p) => 1 <= p.len() < path.len(),
            None => true,
        },
{
    lemma_last_index_of(path, '/');
}

/// The parent directory of `path`, or nothing at the root or for a path
/// without any `/`.
pub fn parent_dir(path: &str) -> (r: Option<String>)
    ensures
        match r {
            Some(p) => parent_of(path@) == Some(p@) && 1 <= p@.len() < path@.len(),
            None => parent_of(path@) is None,
        },
{
    let len = path.unicode_len();
    let mut i: usize = len;
    proof {
        assert(path@.take(len as int) =~= path@);
    }
    while i > 0
        invariant
            len == path@.len(),
            i <= len,
            last_index_of(path@, '/') == last_index_of(path@.take(i as int), '/'),
        decreases i,
    {
        i -= 1;
        proof {
            assert(path@.take(i + 1).drop_last() =~= path@.take(i as int));
            assert(path@.take(i + 1).last() == path@[i as int]);
        }
        if path.get_char(i) == '/' {
            proof {
                assert(last_index_of(path@.take(i + 1), '/') == i);
            }
            if i == 0 {
                if len == 1 {
                    return None;
                }
                proof {
                    reveal_strlit("/");
                }
                let root = String::from_str("/");
                proof {
                    assert(root@ =~= seq!['/']);
                }
                return Some(root);
            }
            let p = String::from_str(path.substring_char(0, i));
            return Some(p);
        }
    }
    proof {
        assert(path@.take(0) =~= Seq::<char>::empty());
    }
    None
}

/// The reserved configuration file name, `.ok`, as characters.
pub open spec fn ok_name() -> Seq<char> {
    seq!['.', 'o', 'k']
}

/// The path of the configuration file inside directory `dir`.
pub open spec fn config_path_of(dir: Seq<char>) -> Seq<char> {
    if dir == seq!['/'] {
        seq!['/'] + ok_name()
    } else {
        dir + seq!['/'] + ok_name()
    }
}

/// The path of the configuration file inside directory `dir`.
pub fn config_path(dir: &str) -> (r: String)
    ensures
        r@ == config_path_of(dir@),
{
    proof {
        reveal_strlit("/");
        reveal_strlit("/.ok");
    }
    let len = dir.unicode_len();
    if len == 1 && dir.get_char(0) == '/' {
        let r = String::from_str("/.ok");
        proof {
            assert(dir@ =~= seq!['/']);
            assert(r@ =~= seq!['/'] + ok_name());
        }
        r
    } else {
        let mut r = String::from_str(dir);
        r.append("/.ok");
        proof {
            assert(seq!['/'][0] == '/');
            assert(dir@ != seq!['/']);
            assert(r@ =~= dir@ + seq!['/'] + ok_name());
        }
        r
    }
}

/// The configuration file's own directory is recovered from its path: the
/// characters of `.ok` hold no slash, so the slash put before the file name
/// is the last one.
pub proof fn lemma_parent_of_config_path(dir: Seq<char>)
    requires
        dir.len() >= 1,
    ensures
        parent_of(config_path_of(dir)) == Some(dir),
{
    let base: Seq<char> = if dir == seq!['/'] {
        seq!['/']
    } else {
        dir + seq!['/']
    };
    let c = config_path_of(dir);
    assert(c =~= base + ok_name());
    assert(c.last() == 'k');
    assert(c.drop_last() =~= base + seq!['.', 'o']);
    assert(c.drop_last().last() == 'o');
    assert(c.drop_last().drop_last() =~= base + seq!['.']);
    assert(c.drop_last().drop_last().last() == '.');
    assert(c.drop_last().drop_last().drop_last() =~= base);
    assert(base.last() == '/');
    assert(last_index_of(base, '/') == base.len() - 1);
    assert(last_index_of(c, '/') == last_index_of(c.drop_last(), '/'));
    assert(last_index_of(c.drop_last(), '/') == last_index_of(c.drop_last().drop_last(), '/'));
    assert(last_index_of(c.drop_last().drop_last(), '/') == last_index_of(
        c.drop_last().drop_last().drop_last(),
        '/',
    ));
    assert(last_index_of(c, '/') == base.len() - 1);
    if dir == seq!['/'] {
        assert(parent_of(c) == Some(seq!['/']));
    } else {
        assert(base.len() - 1 == dir.len());
        assert(c.subrange(0, dir.len() as int) =~= dir);
    }
}

/// The directories that hold a readable configuration file, as plain
/// values: each entry pairs a directory path with that file's content.
/// Directories whose file is missing or unreadable are absent.
pub struct DirTree {
    /// `(directory path, configuration file content)` pairs.
    pub files: Vec<(String, String)>,
}

/// The configuration file content of directory `dir`, if the tree holds one
/// (the first entry for `dir` counts).
pub open spec fn tree_lookup(
    files: Seq<(Seq<char>, Seq<char>)>,
    dir: Seq<char>,
) -> Option<Seq<char>>
    decreases files.len(),
{
    if files.len() == 0 {
        None
    } else if files[0].0 == dir {
        Some(files[0].1)
    } else {
        tree_lookup(files.drop_first(), dir)
    }
}

impl DirTree {
    /// Look up the configuration file content of directory `dir`.
    pub fn lookup(&self, dir: &String) -> (r: Option<String>)
        ensures
            match r {
                Some(c) => tree_lookup(self.files.deep_view(), dir@) == Some(c@),
                None => tree_lookup(self.files.deep_view(), dir@) is None,
            },
    {
        let ghost files_v = self.files.deep_view();
        let mut i: usize = 0;
        proof {
            assert(files_v.skip(0) =~= files_v);
        }
        while i < self.files.len()
            invariant
                files_v == self.files.deep_view(),
                i <= self.files.len(),
                tree_lookup(files_v.skip(i as int), dir@) == tree_lookup(files_v, dir@),
            decreases self.files.len() - i,
        {
            proof {
                assert(files_v.skip(i as int)[0] == files_v[i as int]);
                assert(files_v.skip(i as int).drop_first() =~= files_v.skip(i + 1));
            }
            let e = &self.files[i];
            proof {
                assert(files_v[i as int].0 == e.0@);
                assert(files_v[i as int].1 == e.1@);
            }
            if e.0.eq(dir) {
                return Some(e.1.clone());
            }
            i += 1;
        }
        proof {
            assert(files_v.skip(i as int) =~= Seq::<(Seq<char>, Seq<char>)>::empty());
        }
        None
    }
}

/// The nearest ancestor of `dir` (including `dir` itself) that holds a
/// configuration file, with that file's content.
pub open spec fn nearest_config(
    files: Seq<(Seq<char>, Seq<char>)>,
    dir: Seq<char>,
) -> Option<(Seq<char>, Seq<char>)>
    decreases dir.len(),
    via nearest_config_decreases
{
    match tree_lookup(files, dir) {
        Some(content) => Some((dir, content)),
        None => match parent_of(dir) {
            None => None,
            Some(p) => nearest_config(files, p),
        },
    }
}

#[via_fn]
proof fn nearest_config_decreases(files: Seq<(Seq<char>, Seq<char>)>, dir: Seq<char>) {
    lemma_parent_of_shorter(dir);
}

/// Walk from `current_path` upward and load the nearest configuration file
/// found. The walk stops at the first directory that holds one; a malformed
/// file there fails the whole lookup, and an ancestry without any
/// configuration file yields nothing.
pub fn find_profile(tree: &DirTree, current_path: String) -> (r: Option<Profile>)
    ensures
        match nearest_config(tree.files.deep_view(), current_path@) {
            None => r is None,
            Some(dc) => match r {
                Some(p) => loaded_profile(p, config_path_of(dc.0), dc.1),
                None => parse_entries(lines_of(dc.1)) is None,
            },
        },
{
    let ghost files_v = tree.files.deep_view();
    let ghost start = current_path@;
    let mut dir = current_path;
    loop
        invariant
            files_v == tree.files.deep_view(),
            start == current_path@,
            nearest_config(files_v, dir@) == nearest_config(files_v, start),
        decreases dir@.len(),
    {
        match tree.lookup(&dir) {
            Some(content) => {
                let path = config_path(dir.as_str());
                return parse_profile(path, content.as_str());
            },
            None => {},
        }
        match parent_dir(dir.as_str()) {
            Some(p) => {
                dir = p;
            },
            None => {
                return None;
            },
        }
    }
}

/// How a malformed configuration file met during the chain walk is treated.
#[derive(Clone, Copy, Debug, PartialEq, Eq, Structural)]
pub enum MalformedPolicy {
    /// A malformed file fails the whole chain build.
    AbortChain,
    /// A malformed file is skipped; the walk goes on with the next ancestor.
    SkipFile,
}

/// Every ancestor of `dir` (including `dir` itself) that holds a
/// configuration file, with contents, nearest first.
pub open spec fn ancestor_configs(
    files: Seq<(Seq<char>, Seq<char>)>,
    dir: Seq<char>,
) -> Seq<(Seq<char>, Seq<char>)>
    decreases dir.len(),
    via ancestor_configs_decreases
{
    let rest = match parent_of(dir) {
        None => Seq::empty(),
        Some(p) => ancestor_configs(files, p),
    };
    match tree_lookup(files, dir) {
        Some(content) => seq![(dir, content)] + rest,
        None => rest,
    }
}

#[via_fn]
proof fn ancestor_configs_decreases(files: Seq<(Seq<char>, Seq<char>)>, dir: Seq<char>) {
    lemma_parent_of_shorter(dir);
}

/// The configurations the chain keeps, nearest first: under `SkipFile`
/// every well-formed one; under `AbortChain` all of them, or the whole
/// build fails on the first malformed one.
pub open spec fn chain_configs(
    cs: Seq<(Seq<char>, Seq<char>)>,
    policy: MalformedPolicy,
) -> Option<Seq<(Seq<char>, Seq<char>)>>
    decreases cs.len(),
{
    if cs.len() == 0 {
        Some(Seq::empty())
    } else {
        let rest = chain_configs(cs.drop_first(), policy);
        if parse_entries(lines_of(cs[0].1)) is Some {
            match rest {
                None => None,
                Some(r) => Some(seq![cs[0]] + r),
            }
        } else {
            match policy {
                MalformedPolicy::AbortChain => None,
                MalformedPolicy::SkipFile => rest,
            }
        }
    }
}

/// The ordered list of profiles found by walking upward, nearest first.
pub struct ProfileChain {
    /// The loaded profiles, nearest directory first.
    pub profiles: Vec<Profile>,
}

impl ProfileChain {
    /// Every profile's configuration file lies inside some directory.
    pub open spec fn wf(self) -> bool {
        forall|i: int|
            0 <= i < self.profiles@.len() ==> parent_of(
                (#[trigger] self.profiles@[i]).path@,
            ) is Some
    }
}

/// Pending chain build: configurations already kept and those still to
/// come; the build fails as soon as either part fails.
spec fn with_kept(
    done: Seq<(Seq<char>, Seq<char>)>,
    rest: Option<Seq<(Seq<char>, Seq<char>)>>,
) -> Option<Seq<(Seq<char>, Seq<char>)>> {
    match rest {
        None => None,
        Some(r) => Some(done + r),
    }
}

/// Build the profile chain: walk from `current_path` up to the root and
/// load every configuration file found, nearest first. A directory absent
/// from the tree is skipped silently; a malformed file is treated as
/// `policy` says. Each loaded profile records the path of its file, whose
/// parent is the directory it was found in.
pub fn build_chain(tree: &DirTree, current_path: String, policy: MalformedPolicy) -> (r: Option<
    ProfileChain,
>)
    requires
        current_path@.len() >= 1,
    ensures
        match (r, chain_configs(
            ancestor_configs(tree.files.deep_view(), current_path@),
            policy,
        )) {
            (Some(chain), Some(kept)) => {
                &&& chain.wf()
                &&& chain.profiles@.len() == kept.len()
                &&& forall|i: int|
                    0 <= i < kept.len() ==> loaded_profile(
                        #[trigger] chain.profiles@[i],
                        config_path_of(kept[i].0),
                        kept[i].1,
                    )
                &&& forall|i: int|
                    0 <= i < kept.len() ==> parent_of((#[trigger] chain.profiles@[i]).path@)
                        == Some(kept[i].0)
            },
            (None, None) => true,
            _ => false,
        },
{
    let ghost files_v = tree.files.deep_view();
    let ghost start = current_path@;
    let ghost overall = chain_configs(ancestor_configs(files_v, start), policy);
    let mut profiles: Vec<Profile> = Vec::new();
    let ghost mut kept: Seq<(Seq<char>, Seq<char>)> = Seq::empty();
    let mut dir_opt: Option<String> = Some(current_path);
    proof {
        match chain_configs(ancestor_configs(files_v, start), policy) {
            Some(k0) => {
                assert(kept + k0 =~= k0);
            },
            None => (),
        }
    }
    while dir_opt.is_some()
        invariant
            files_v == tree.files.deep_view(),
            start == current_path@,
            overall == chain_configs(ancestor_configs(files_v, start), policy),
            profiles@.len() == kept.len(),
            forall|i: int|
                0 <= i < kept.len() ==> loaded_profile(
                    #[trigger] profiles@[i],
                    config_path_of(kept[i].0),
                    kept[i].1,
                ),
            forall|i: int|
                0 <= i < kept.len() ==> parent_of((#[trigger] profiles@[i]).path@) == Some(
                    kept[i].0,
                ),
            match dir_opt {
                Some(d) => d@.len() >= 1 && with_kept(
                    kept,
                    chain_configs(ancestor_configs(files_v, d@), policy),
                ) == overall,
                None => with_kept(kept, Some(Seq::empty())) == overall,
            },
        decreases (match dir_opt {
            Some(d) => d@.len() + 1,
            None => 0,
        }),
    {
        let dir = dir_opt.unwrap();
        let ghost cs = ancestor_configs(files_v, dir@);
        let ghost rest_cs = match parent_of(dir@) {
            None => Seq::<(Seq<char>, Seq<char>)>::empty(),
            Some(p) => ancestor_configs(files_v, p),
        };
        match tree.lookup(&dir) {
            Some(content) => {
                proof {
                    assert(cs == seq![(dir@, content@)] + rest_cs);
                    assert(cs[0] == (dir@, content@));
                    assert(cs.drop_first() =~= rest_cs);
                }
                let path = config_path(dir.as_str());
                match parse_profile(path, content.as_str()) {
                    Some(p) => {
                        let ghost kept_prev = kept;
                        profiles.push(p);
                        proof {
                            lemma_parent_of_config_path(dir@);
                            kept = kept.push((dir@, content@));
                            match chain_configs(rest_cs, policy) {
                                Some(rr) => {
                                    assert(kept_prev + (seq![(dir@, content@)] + rr) =~= kept
                                        + rr);
                                },
                                None => (),
                            }
                        }
                    },
                    None => {
                        match policy {
                            MalformedPolicy::AbortChain => {
                                proof {
                                    assert(chain_configs(cs, policy) is None);
                                }
                                return None;
                            },
                            MalformedPolicy::SkipFile => {
                                proof {
                                    assert(chain_configs(cs, policy) == chain_configs(
                                        rest_cs,
                                        policy,
                                    ));
                                }
                            },
                        }
                    },
                }
            },
            None => {
                proof {
                    assert(cs == rest_cs);
                }
            },
        }
        match parent_dir(dir.as_str()) {
            Some(pp) => {
                dir_opt = Some(pp);
            },
            None => {
                dir_opt = None;
                proof {
                    assert(rest_cs =~= Seq::<(Seq<char>, Seq<char>)>::empty());
                    assert(chain_configs(rest_cs, policy) == Some(
                        Seq::<(Seq<char>, Seq<char>)>::empty(),
                    ));
                }
            },
        }
    }
    proof {
        assert(kept + Seq::<(Seq<char>, Seq<char>)>::empty() =~= kept);
        assert(overall == Some(kept));
    }
    Some(ProfileChain { profiles })
}

/// The public command names of every profile of the chain, nearest profile
/// first, file order within each profile.
pub open spec fn chain_public_names(ps: Seq<Profile>) -> Seq<Seq<char>>
    decreases ps.len(),
{
    if ps.len() == 0 {
        Seq::empty()
    } else {
        chain_public_names(ps.drop_last()) + names_of(ps.last().commands.deep_view())
    }
}

/// Join `names` with single spaces.
pub fn join_names(names: &Vec<String>) -> (r: String)
    ensures
        r@ == joined(names.deep_view()),
{
    let ghost names_v = names.deep_view();
    let mut out = String::new();
    let mut k: usize = 0;
    while k < names.len()
        invariant
            names_v == names.deep_view(),
            k <= names.len(),
            k == 0 ==> out@ == Seq::<char>::empty(),
            k >= 1 ==> out@ == joined(names_v.take(k as int)),
        decreases names.len() - k,
    {
        if k == 0 {
            out = names[0].clone();
            proof {
                assert(names_v.take(1) =~= seq![names_v[0]]);
                assert(joined(names_v.take(1)) == names_v[0]);
            }
        } else {
            out = out.concat(" ");
            out.append(names[k].as_str());
            proof {
                reveal_strlit(" ");
                assert(names_v.take(k + 1).drop_last() =~= names_v.take(k as int));
                assert(names_v.take(k + 1).last() == names_v[k as int]);
                assert(out@ =~= joined(names_v.take(k as int)) + seq![' '] + names_v[k as int]);
            }
        }
        k += 1;
    }
    proof {
        if names.len() == 0 {
            assert(joined(names_v) == Seq::<char>::empty());
        } else {
            assert(names_v.take(names_v.len() as int) =~= names_v);
        }
    }
    out
}

/// The listing: every public command name across the chain, space-joined,
/// nearest profile first and file order within each profile; internal
/// commands never appear.
pub fn list_commands(chain: &ProfileChain) -> (r: String)
    ensures
        r@ == joined(chain_public_names(chain.profiles@)),
{
    let mut names: Vec<String> = Vec::new();
    let mut i: usize = 0;
    while i < chain.profiles.len()
        invariant
            i <= chain.profiles.len(),
            names.deep_view() == chain_public_names(chain.profiles@.take(i as int)),
        decreases chain.profiles.len() - i,
    {
        let p = &chain.profiles[i];
        let ghost acc = chain_public_names(chain.profiles@.take(i as int));
        let mut j: usize = 0;
        while j < p.commands.len()
            invariant
                j <= p.commands.len(),
                acc == chain_public_names(chain.profiles@.take(i as int)),
                p == &chain.profiles@[i as int],
                i < chain.profiles@.len(),
                names.deep_view() == acc + names_of(p.commands.deep_view().take(j as int)),
            decreases p.commands.len() - j,
        {
            let ghost prev = names.deep_view();
            names.push(p.commands[j].0.clone());
            proof {
                assert(names.deep_view() =~= prev.push(p.commands@[j as int].0@));
                assert(names_of(p.commands.deep_view().take(j + 1)) =~= names_of(
                    p.commands.deep_view().take(j as int),
                ).push(p.commands@[j as int].0@));
                assert(names.deep_view() =~= acc + names_of(
                    p.commands.deep_view().take(j + 1),
                ));
            }
            j += 1;
        }
        proof {
            assert(chain.profiles@.take(i + 1).drop_last() =~= chain.profiles@.take(i as int));
            assert(chain.profiles@.take(i + 1).last() == chain.profiles@[i as int]);
            assert(p.commands.deep_view().take(p.commands@.len() as int) =~= p.commands.deep_view());
            assert(names.deep_view() == chain_public_names(chain.profiles@.take(i + 1)));
        }
        i += 1;
    }
    proof {
        assert(chain.profiles@.take(chain.profiles@.len() as int) =~= chain.profiles@);
    }
    join_names(&names)
}

} // verus!
