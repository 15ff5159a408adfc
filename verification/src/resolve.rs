//! Prefix resolution over the merged command set of a profile chain.
//!
//! A candidate is eligible when its name starts with the user-typed prefix,
//! byte-for-byte and case-sensitively (the empty prefix matches everything).
//! Among the eligible candidates the shortest name wins; ties go to the
//! first occurrence in merged order — nearest profile first, and within one
//! profile its public entries in file order followed by its internal entries
//! in file order. A profile keeps no interleaved order across the two
//! groups, so a tie between a public and an internal entry of one profile
//! goes to the public one.

use vstd::prelude::*;
use crate::chain::ProfileChain;
use crate::profile::Profile;
use crate::text::{has_prefix, starts_with_str};

verus! {

/// One command of the merged set: its name, its template, and the path of
/// the configuration file that owns it. The resolver's winner is returned
/// in this shape; the owning path later resolves `{}` in decorations.
pub struct ChainCommand {
    /// The command name.
    pub name: String,
    /// The command template.
    pub command: String,
    /// The path of the owning profile's configuration file.
    pub path: String,
}

impl View for ChainCommand {
    type V = (Seq<char>, Seq<char>, Seq<char>);

    open spec fn view(&self) -> (Seq<char>, Seq<char>, Seq<char>) {
        (self.name@, self.command@, self.path@)
    }
}

/// The entries of one profile — public first, then internal, each group in
/// file order — tagged with the profile's path.
pub open spec fn profile_entries(p: Profile) -> Seq<(Seq<char>, Seq<char>, Seq<char>)> {
    (p.commands.deep_view() + p.internal_commands.deep_view()).map_values(
        |e: (Seq<char>, Seq<char>)| (e.0, e.1, p.path@),
    )
}

/// The merged command set of a chain: every profile's entries in
/// nearest-profile-first order.
pub open spec fn merged_of(ps: Seq<Profile>) -> Seq<(Seq<char>, Seq<char>, Seq<char>)>
    decreases ps.len(),
{
    if ps.len() == 0 {
        Seq::empty()
    } else {
        merged_of(ps.drop_last()) + profile_entries(ps.last())
    }
}

/// The views of a vector of chain commands.
pub open spec fn commands_view(s: Seq<ChainCommand>) -> Seq<(Seq<char>, Seq<char>, Seq<char>)> {
    s.map_values(|c: ChainCommand| c@)
}

/// Is the entry's name eligible for prefix `p`?
pub open spec fn eligible(e: (Seq<char>, Seq<char>, Seq<char>), p: Seq<char>) -> bool {
    has_prefix(e.0, p)
}

/// The index of the best match among the first `n` entries of `s`: the
/// first eligible entry that no later eligible entry undercuts in name
/// length.
pub open spec fn best_upto(
    s: Seq<(Seq<char>, Seq<char>, Seq<char>)>,
    p: Seq<char>,
    n: int,
) -> Option<int>
    decreases n,
{
    if n <= 0 {
        None
    } else {
        let prev = best_upto(s, p, n - 1);
        if !eligible(s[n - 1], p) {
            prev
        } else {
            match prev {
                None => Some(n - 1),
                Some(k) => if s[n - 1].0.len() < s[k].0.len() {
                    Some(n - 1)
                } else {
                    prev
                },
            }
        }
    }
}

/// Law: the resolver's choice is sound and complete — the chosen entry is
/// eligible, no eligible entry has a strictly shorter name, every eligible
/// entry before it is strictly longer (first occurrence wins ties), and when
/// nothing is eligible there is no choice.
pub proof fn lemma_best_upto_sound(s: Seq<(Seq<char>, Seq<char>, Seq<char>)>, p: Seq<char>, n: int)
    requires
        0 <= n <= s.len(),
    ensures
        match best_upto(s, p, n) {
            Some(k) => {
                &&& 0 <= k < n
                &&& eligible(s[k], p)
                &&& forall|j: int|
                    0 <= j < n && eligible(#[trigger] s[j], p) ==> s[k].0.len() <= s[j].0.len()
                &&& forall|j: int|
                    0 <= j < k && eligible(#[trigger] s[j], p) ==> s[k].0.len() < s[j].0.len()
            },
            None => forall|j: int| 0 <= j < n ==> !eligible(#[trigger] s[j], p),
        },
    decreases n,
{
    if n > 0 {
        lemma_best_upto_sound(s, p, n - 1);
    }
}

/// The merged command set of `chain`, as values.
pub fn merged_commands(chain: &ProfileChain) -> (r: Vec<ChainCommand>)
    ensures
        commands_view(r@) == merged_of(chain.profiles@),
{
    let mut out: Vec<ChainCommand> = Vec::new();
    let mut i: usize = 0;
    while i < chain.profiles.len()
        invariant
            i <= chain.profiles.len(),
            commands_view(out@) == merged_of(chain.profiles@.take(i as int)),
        decreases chain.profiles.len() - i,
    {
        let p = &chain.profiles[i];
        let ghost acc = merged_of(chain.profiles@.take(i as int));
        let ghost entries = profile_entries(chain.profiles@[i as int]);
        let all = p.all_commands();
        let ghost all_v = all.deep_view();
        proof {
            assert(entries =~= all_v.map_values(
                |e: (Seq<char>, Seq<char>)| (e.0, e.1, p.path@),
            ));
        }
        let mut j: usize = 0;
        while j < all.len()
            invariant
                j <= all.len(),
                all_v == all.deep_view(),
                acc == merged_of(chain.profiles@.take(i as int)),
                entries == all_v.map_values(
                    |e: (Seq<char>, Seq<char>)| (e.0, e.1, chain.profiles@[i as int].path@),
                ),
                i < chain.profiles@.len(),
                p == &chain.profiles@[i as int],
                commands_view(out@) == acc + entries.take(j as int),
            decreases all.len() - j,
        {
            let e = &all[j];
            let ghost prev = commands_view(out@);
            out.push(ChainCommand {
                name: e.0.clone(),
                command: e.1.clone(),
                path: p.path.clone(),
            });
            proof {
                assert(all_v[j as int] == (e.0@, e.1@));
                assert(commands_view(out@) =~= prev.push((e.0@, e.1@, p.path@)));
                assert(entries.take(j + 1) =~= entries.take(j as int).push(entries[j as int]));
                assert(commands_view(out@) =~= acc + entries.take(j + 1));
            }
            j += 1;
        }
        proof {
            assert(chain.profiles@.take(i + 1).drop_last() =~= chain.profiles@.take(i as int));
            assert(chain.profiles@.take(i + 1).last() == chain.profiles@[i as int]);
            assert(entries.take(entries.len() as int) =~= entries);
            assert(commands_view(out@) =~= merged_of(chain.profiles@.take(i + 1)));
        }
        i += 1;
    }
    proof {
        assert(chain.profiles@.take(chain.profiles@.len() as int) =~= chain.profiles@);
    }
    out
}

/// When `possible_command` starts with `command`: the number of shared
/// prefix characters — the whole of `command` — together with the candidate
/// name; nothing otherwise.
pub fn shared_prefix(possible_command: &str, command: &str) -> (r: Option<(usize, String)>)
    ensures
        match r {
            Some(sc) => has_prefix(possible_command@, command@) && sc.0 as nat == command@.len()
                && sc.1@ == possible_command@,
            None => !has_prefix(possible_command@, command@),
        },
{
    if starts_with_str(possible_command, command) {
        Some((command.unicode_len(), String::from_str(possible_command)))
    } else {
        None
    }
}

/// Resolve the prefix `command` against the merged command set of `chain`:
/// the winner is the first eligible entry of minimal name length; nothing
/// when no name starts with `command`.
pub fn resolve(chain: &ProfileChain, command: &String) -> (r: Option<ChainCommand>)
    ensures
        ({
            let m = merged_of(chain.profiles@);
            match best_upto(m, command@, m.len() as int) {
                None => r is None,
                Some(k) => r matches Some(c) && c@ == m[k],
            }
        }),
{
    let merged = merged_commands(chain);
    let ghost m = merged_of(chain.profiles@);
    let mut best: Option<usize> = None;
    let mut i: usize = 0;
    while i < merged.len()
        invariant
            commands_view(merged@) == m,
            i <= merged.len(),
            match best {
                None => best_upto(m, command@, i as int) is None,
                Some(b) => b < i && best_upto(m, command@, i as int) == Some(b as int),
            },
        decreases merged.len() - i,
    {
        proof {
            assert(m[i as int] == merged@[i as int]@);
        }
        let e = &merged[i];
        if starts_with_str(e.name.as_str(), command.as_str()) {
            match best {
                None => {
                    best = Some(i);
                },
                Some(b) => {
                    proof {
                        assert(m[b as int] == merged@[b as int]@);
                    }
                    if e.name.as_str().unicode_len()
                        < merged[b].name.as_str().unicode_len() {
                        best = Some(i);
                    }
                },
            }
        }
        i += 1;
    }
    match best {
        None => None,
        Some(b) => {
            proof {
                assert(m[b as int] == merged@[b as int]@);
            }
            let c = &merged[b];
            Some(
                ChainCommand {
                    name: c.name.clone(),
                    command: c.command.clone(),
                    path: c.path.clone(),
                },
            )
        },
    }
}

} // verus!
