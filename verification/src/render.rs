//! Rendering the resolved command: positional hole filling plus the
//! directory-aware prefix and suffix decorations.
//!
//! A decoration is an optional string wrapped around the rendered template;
//! every literal `{}` inside it is replaced by the absolute path of the
//! directory holding the winning profile's configuration file. An absent
//! decoration is the empty string, and nothing is escaped anywhere.

use vstd::prelude::*;
use crate::chain::{parent_dir, parent_of, ProfileChain};
use crate::holes::{fill_in_arguments, rendered};
use crate::profile::Profile;
use crate::resolve::{best_upto, merged_of, resolve, ChainCommand};
use crate::text::{replace_all, replace_seq};

verus! {

/// The two-character directory marker `{}` inside decorations.
pub open spec fn dir_marker() -> Seq<char> {
    seq!['{', '}']
}

/// The directory of a configuration file path (empty when it has none).
pub open spec fn dir_of_path(path: Seq<char>) -> Seq<char> {
    match parent_of(path) {
        Some(d) => d,
        None => Seq::empty(),
    }
}

/// The view of an optional string.
pub open spec fn opt_view(o: Option<String>) -> Option<Seq<char>> {
    match o {
        None => None,
        Some(s) => Some(s@),
    }
}

/// A decoration with every `{}` replaced by `dir`; an absent decoration is
/// the empty string.
pub open spec fn decorated(pattern: Option<Seq<char>>, dir: Seq<char>) -> Seq<char> {
    match pattern {
        None => Seq::empty(),
        Some(s) => replace_seq(s, dir_marker(), dir),
    }
}

/// Replace every `{}` in `pattern` by the directory holding the
/// configuration file at `path`; an absent `pattern` yields the empty
/// string.
pub fn fill_in_directory(path: &str, pattern: Option<String>) -> (r: String)
    requires
        parent_of(path@) is Some,
    ensures
        r@ == decorated(opt_view(pattern), dir_of_path(path@)),
{
    let dir_opt = parent_dir(path);
    let dir = dir_opt.unwrap();
    match pattern {
        Some(s) => {
            proof {
                reveal_strlit("{}");
                assert("{}"@ =~= dir_marker());
            }
            replace_all(s.as_str(), "{}", dir.as_str())
        },
        None => {
            String::new()
        },
    }
}

/// Replace every `{}` in `pattern` by the directory holding the profile's
/// configuration file; an absent `pattern` yields the empty string.
pub fn fill_in_profile_directory(profile: &Profile, pattern: Option<String>) -> (r: String)
    requires
        parent_of(profile.path@) is Some,
    ensures
        r@ == decorated(opt_view(pattern), dir_of_path(profile.path@)),
{
    fill_in_directory(profile.path.as_str(), pattern)
}

/// The final rendered line: decorated prefix, then the template with holes
/// filled and overflow arguments appended, then decorated suffix, with no
/// added separators.
pub open spec fn rendered_command(
    template: Seq<char>,
    dir: Seq<char>,
    prefix: Option<Seq<char>>,
    suffix: Option<Seq<char>>,
    args: Seq<Seq<char>>,
) -> Seq<char> {
    decorated(prefix, dir) + rendered(template, args) + decorated(suffix, dir)
}

/// Every entry of the merged set carries the path of a profile of the
/// chain, so inside a well-formed chain it lies in some directory.
pub proof fn lemma_merged_paths(ps: Seq<Profile>)
    requires
        forall|i: int| 0 <= i < ps.len() ==> parent_of((#[trigger] ps[i]).path@) is Some,
    ensures
        forall|k: int|
            0 <= k < merged_of(ps).len() ==> parent_of(#[trigger] merged_of(ps)[k].2) is Some,
    decreases ps.len(),
{
    if ps.len() > 0 {
        let prefix = ps.drop_last();
        assert(forall|i: int|
            0 <= i < prefix.len() ==> parent_of((#[trigger] prefix[i]).path@) is Some);
        lemma_merged_paths(prefix);
        assert forall|k: int|
            0 <= k < merged_of(ps).len() implies parent_of(
            #[trigger] merged_of(ps)[k].2,
        ) is Some by {
            if k < merged_of(prefix).len() {
                assert(merged_of(ps)[k] == merged_of(prefix)[k]);
            } else {
                let e = merged_of(ps)[k];
                assert(e == crate::resolve::profile_entries(ps.last())[k - merged_of(
                    prefix,
                ).len()]);
                assert(e.2 == ps.last().path@);
                assert(ps.last() == ps[ps.len() - 1]);
            }
        }
    }
}

/// Resolve the prefix `command` against the chain and render the winner:
/// holes filled from `args` in order, left-over arguments appended, and
/// `{}` in `prefix`/`suffix` replaced by the winning profile's directory.
/// Nothing when no command name starts with `command`.
pub fn query(
    chain: &ProfileChain,
    command: String,
    prefix: Option<String>,
    suffix: Option<String>,
    args: Vec<String>,
) -> (r: Option<String>)
    requires
        chain.wf(),
    ensures
        ({
            let m = merged_of(chain.profiles@);
            match best_upto(m, command@, m.len() as int) {
                None => r is None,
                Some(k) => r matches Some(line) && line@ == rendered_command(
                    m[k].1,
                    dir_of_path(m[k].2),
                    opt_view(prefix),
                    opt_view(suffix),
                    args.deep_view(),
                ),
            }
        }),
{
    match resolve(chain, &command) {
        None => None,
        Some(c) => {
            proof {
                let m = merged_of(chain.profiles@);
                crate::resolve::lemma_best_upto_sound(m, command@, m.len() as int);
                lemma_merged_paths(chain.profiles@);
                match best_upto(m, command@, m.len() as int) {
                    Some(k) => {
                        assert(c@ == m[k]);
                        assert(c.path@ == m[k].2);
                        assert(parent_of(m[k].2) is Some);
                    },
                    None => {
                        assert(false);
                    },
                }
            }
            let rendered_prefix = fill_in_directory(c.path.as_str(), prefix);
            let rendered_suffix = fill_in_directory(c.path.as_str(), suffix);
            let filled = fill_in_arguments(c.command, args);
            let mut out = rendered_prefix;
            out.append(filled.as_str());
            out.append(rendered_suffix.as_str());
            Some(out)
        },
    }
}

} // verus!
