//! Profiles: one configuration file's parsed command set.
//!
//! A configuration file is newline-delimited text, one `name:template` entry
//! per line, split at the first colon. Empty lines are skipped; a non-empty
//! line without a colon fails the whole load. Entries whose name begins with
//! the reserved marker `_` are internal: they resolve like any other command
//! but are excluded from listing.

use vstd::prelude::*;
use crate::text::{find_char, index_of_from, starts_with_str};

verus! {

/// A parsed entry at specification level: a name and a template.
pub type SpecEntry = (Seq<char>, Seq<char>);

/// The lines of `content`, split on newline characters; a final newline ends
/// the last line rather than opening an empty one.
pub open spec fn lines_of(s: Seq<char>) -> Seq<Seq<char>>
    decreases s.len(),
    via lines_of_decreases
{
    if s.len() == 0 {
        Seq::empty()
    } else {
        let j = index_of_from(s, '\n', 0);
        if j == s.len() {
            seq![s]
        } else {
            seq![s.subrange(0, j)] + lines_of(s.subrange(j + 1, s.len() as int))
        }
    }
}

/// The first occurrence index returned by `index_of_from` stays within the
/// searched text, the character there matches, and nothing before matches.
pub proof fn lemma_index_of_from(s: Seq<char>, c: char, from: int)
    requires
        0 <= from <= s.len(),
    ensures
        from <= index_of_from(s, c, from) <= s.len(),
        index_of_from(s, c, from) < s.len() ==> s[index_of_from(s, c, from)] == c,
        forall|k: int| from <= k < index_of_from(s, c, from) ==> s[k] != c,
    decreases s.len() - from,
{
    if from < s.len() && s[from] != c {
        lemma_index_of_from(s, c, from + 1);
    }
}

#[via_fn]
proof fn lines_of_decreases(s: Seq<char>) {
    if s.len() != 0 {
        lemma_index_of_from(s, '\n', 0);
    }
}

/// Split a line at its first colon: the name before it, the template after
/// it (further colons belong to the template); nothing when the line has no
/// colon.
pub open spec fn parse_line(line: Seq<char>) -> Option<SpecEntry> {
    let j = index_of_from(line, ':', 0);
    if j == line.len() {
        None
    } else {
        Some((line.subrange(0, j), line.subrange(j + 1, line.len() as int)))
    }
}

/// Parse lines into entries in order, skipping empty lines; a non-empty line
/// without a colon fails the whole parse.
pub open spec fn parse_entries(ls: Seq<Seq<char>>) -> Option<Seq<SpecEntry>>
    decreases ls.len(),
{
    if ls.len() == 0 {
        Some(Seq::empty())
    } else if ls[0].len() == 0 {
        parse_entries(ls.drop_first())
    } else {
        match parse_line(ls[0]) {
            None => None,
            Some(e) => match parse_entries(ls.drop_first()) {
                None => None,
                Some(rest) => Some(seq![e] + rest),
            },
        }
    }
}

/// An internal command name: one that starts with the reserved marker `_`.
pub open spec fn is_internal(name: Seq<char>) -> bool {
    name.len() >= 1 && name[0] == '_'
}

/// The public entries of `es` — those not internally named — in order.
pub open spec fn public_of(es: Seq<SpecEntry>) -> Seq<SpecEntry>
    decreases es.len(),
{
    if es.len() == 0 {
        Seq::empty()
    } else {
        let rest = public_of(es.drop_last());
        if is_internal(es.last().0) {
            rest
        } else {
            rest.push(es.last())
        }
    }
}

/// The internal entries of `es`, in order.
pub open spec fn internal_of(es: Seq<SpecEntry>) -> Seq<SpecEntry>
    decreases es.len(),
{
    if es.len() == 0 {
        Seq::empty()
    } else {
        let rest = internal_of(es.drop_last());
        if is_internal(es.last().0) {
            rest.push(es.last())
        } else {
            rest
        }
    }
}

/// The names of the entries, in order.
pub open spec fn names_of(es: Seq<SpecEntry>) -> Seq<Seq<char>> {
    es.map_values(|e: SpecEntry| e.0)
}

/// The names among `names` that are not internal, in order.
pub open spec fn non_internal_names(names: Seq<Seq<char>>) -> Seq<Seq<char>>
    decreases names.len(),
{
    if names.len() == 0 {
        Seq::empty()
    } else {
        let rest = non_internal_names(names.drop_last());
        if is_internal(names.last()) {
            rest
        } else {
            rest.push(names.last())
        }
    }
}

/// The space-joined text of `names`, in order.
pub open spec fn joined(names: Seq<Seq<char>>) -> Seq<char>
    decreases names.len(),
{
    if names.len() == 0 {
        Seq::empty()
    } else if names.len() == 1 {
        names[0]
    } else {
        joined(names.drop_last()) + seq![' '] + names.last()
    }
}

/// One configuration file's parsed command set plus its filesystem location.
/// A profile is immutable once loaded.
pub struct Profile {
    /// The public entries, in file order.
    pub commands: Vec<(String, String)>,
    /// The internal entries (name begins with `_`), in file order.
    pub internal_commands: Vec<(String, String)>,
    /// The path of the backing configuration file.
    pub path: String,
}

/// `p` is the profile loaded from a configuration file at `path` holding
/// `content`: the content parses, and the profile partitions the parsed
/// entries into public and internal groups, each in file order.
pub open spec fn loaded_profile(p: Profile, path: Seq<char>, content: Seq<char>) -> bool {
    match parse_entries(lines_of(content)) {
        Some(es) => {
            &&& p.commands.deep_view() == public_of(es)
            &&& p.internal_commands.deep_view() == internal_of(es)
            &&& p.path@ == path
        },
        None => false,
    }
}

/// Split `content` into its lines.
pub fn split_lines(content: &str) -> (r: Vec<String>)
    ensures
        r.deep_view() == lines_of(content@),
{
    let mut out: Vec<String> = Vec::new();
    let mut rest: &str = content;
    while !rest.is_empty()
        invariant
            out.deep_view() + lines_of(rest@) == lines_of(content@),
        decreases rest@.len(),
    {
        let ghost prev = out.deep_view();
        let ghost rest_prev = rest@;
        let len = rest.unicode_len();
        let j = find_char(rest, '\n');
        if j == len {
            out.push(String::from_str(rest));
            rest = rest.substring_char(len, len);
            proof {
                assert(lines_of(rest_prev) == seq![rest_prev]);
                assert(out.deep_view() =~= prev + seq![rest_prev]);
                assert(lines_of(rest@) =~= Seq::<Seq<char>>::empty());
                assert(out.deep_view() + lines_of(rest@) =~= prev + lines_of(rest_prev));
            }
        } else {
            let line = rest.substring_char(0, j);
            out.push(String::from_str(line));
            rest = rest.substring_char(j + 1, len);
            proof {
                assert(lines_of(rest_prev) == seq![rest_prev.subrange(0, j as int)] + lines_of(
                    rest_prev.subrange(j + 1, rest_prev.len() as int),
                ));
                assert(out.deep_view() =~= prev + seq![rest_prev.subrange(0, j as int)]);
                assert(out.deep_view() + lines_of(rest@) =~= prev + lines_of(rest_prev));
            }
        }
    }
    proof {
        assert(lines_of(rest@) =~= Seq::<Seq<char>>::empty());
        assert(out.deep_view() =~= out.deep_view() + lines_of(rest@));
    }
    out
}

/// Split `line` at its first colon: the command name before it, the template
/// after it; nothing when the line has no colon.
pub fn split_on_colon(line: String) -> (r: Option<(String, String)>)
    ensures
        match r {
            Some(e) => parse_line(line@) == Some((e.0@, e.1@)),
            None => parse_line(line@) is None,
        },
{
    let s = line.as_str();
    let len = s.unicode_len();
    let j = find_char(s, ':');
    if j == len {
        None
    } else {
        let name = String::from_str(s.substring_char(0, j));
        let template = String::from_str(s.substring_char(j + 1, len));
        Some((name, template))
    }
}

/// Pending parse: `done` already parsed, `rest` still to come; the whole
/// parse fails as soon as either part fails.
spec fn with_parsed(done: Seq<SpecEntry>, rest: Option<Seq<SpecEntry>>) -> Option<Seq<SpecEntry>> {
    match rest {
        None => None,
        Some(r) => Some(done + r),
    }
}

/// Parse one configuration file into a profile: one `name:template` entry
/// per non-empty line, split at the first colon, partitioned into public and
/// internal entries in file order. Nothing when some non-empty line has no
/// colon — a malformed line fails the whole load.
pub fn parse_profile(path: String, content: &str) -> (r: Option<Profile>)
    ensures
        match r {
            Some(p) => loaded_profile(p, path@, content@),
            None => parse_entries(lines_of(content@)) is None,
        },
{
    let lines = split_lines(content);
    let ghost lines_v = lines.deep_view();
    let mut commands: Vec<(String, String)> = Vec::new();
    let mut internal_commands: Vec<(String, String)> = Vec::new();
    let ghost mut done: Seq<SpecEntry> = Seq::empty();
    let mut idx: usize = 0;
    proof {
        assert(lines_v.skip(0) =~= lines_v);
        match parse_entries(lines_v) {
            Some(es) => {
                assert(done + es =~= es);
            },
            None => (),
        }
    }
    while idx < lines.len()
        invariant
            lines_v == lines.deep_view(),
            lines_v == lines_of(content@),
            idx <= lines.len(),
            commands.deep_view() == public_of(done),
            internal_commands.deep_view() == internal_of(done),
            with_parsed(done, parse_entries(lines_v.skip(idx as int))) == parse_entries(lines_v),
        decreases lines.len() - idx,
    {
        let ghost done_prev = done;
        proof {
            assert(lines_v.skip(idx as int).drop_first() =~= lines_v.skip(idx + 1));
            assert(lines_v.skip(idx as int)[0] == lines_v[idx as int]);
        }
        let line: &String = &lines[idx];
        if !line.as_str().is_empty() {
            match split_on_colon(line.clone()) {
                None => {
                    proof {
                        assert(line@ == lines_v[idx as int]);
                        assert(parse_entries(lines_v.skip(idx as int)) is None);
                    }
                    return None;
                },
                Some((name, template)) => {
                    let ghost e = (name@, template@);
                    proof {
                        done = done.push(e);
                        assert(done.drop_last() =~= done_prev);
                        assert(done.last() == e);
                        reveal_strlit("_");
                    }
                    if starts_with_str(name.as_str(), "_") {
                        proof {
                            assert(name@.subrange(0, 1)[0] == name@[0]);
                            assert(is_internal(name@));
                        }
                        internal_commands.push((name, template));
                        proof {
                            assert(internal_commands.deep_view() =~= internal_of(done_prev).push(e));
                            assert(commands.deep_view() == public_of(done));
                        }
                    } else {
                        proof {
                            if is_internal(name@) {
                                assert(name@.subrange(0, 1) =~= "_"@);
                                assert(false);
                            }
                        }
                        commands.push((name, template));
                        proof {
                            assert(commands.deep_view() =~= public_of(done_prev).push(e));
                            assert(internal_commands.deep_view() == internal_of(done));
                        }
                    }
                    proof {
                        if parse_entries(lines_v.skip(idx + 1)) is Some {
                            let rest = parse_entries(lines_v.skip(idx + 1)).unwrap();
                            assert(done_prev + (seq![e] + rest) =~= done + rest);
                        }
                    }
                },
            }
        }
        idx += 1;
    }
    proof {
        assert(lines_v.skip(idx as int) =~= Seq::<Seq<char>>::empty());
        assert(parse_entries(lines_v.skip(idx as int)) == Some(Seq::<SpecEntry>::empty()));
        assert(done + Seq::<SpecEntry>::empty() =~= done);
    }
    Some(Profile { commands, internal_commands, path })
}

impl Profile {
    /// All entries of the profile: the public ones first, then the internal
    /// ones, each group in file order.
    pub fn all_commands(&self) -> (r: Vec<(String, String)>)
        ensures
            r.deep_view() == self.commands.deep_view() + self.internal_commands.deep_view(),
    {
        let mut commands: Vec<(String, String)> = Vec::new();
        let mut i: usize = 0;
        while i < self.commands.len()
            invariant
                i <= self.commands.len(),
                commands.deep_view() == self.commands.deep_view().take(i as int),
            decreases self.commands.len() - i,
        {
            let e = &self.commands[i];
            let name = e.0.clone();
            let template = e.1.clone();
            let ghost pushed = (name@, template@);
            proof {
                assert(pushed == self.commands@[i as int].deep_view());
                assert(commands.deep_view().len() == commands@.len());
                assert(commands.deep_view().len() == i as int);
                assert(commands@.len() == i as int);
            }
            commands.push((name, template));
            proof {
                assert(commands@.len() == i + 1);
                assert(commands@[i as int].deep_view() == pushed);
                assert(commands.deep_view() =~= self.commands.deep_view().take(i + 1));
            }
            i += 1;
        }
        let mut k: usize = 0;
        while k < self.internal_commands.len()
            invariant
                k <= self.internal_commands.len(),
                commands.deep_view() == self.commands.deep_view()
                    + self.internal_commands.deep_view().take(k as int),
            decreases self.internal_commands.len() - k,
        {
            let e = &self.internal_commands[k];
            let name = e.0.clone();
            let template = e.1.clone();
            let ghost pushed = (name@, template@);
            proof {
                assert(pushed == self.internal_commands@[k as int].deep_view());
                assert(commands.deep_view().len() == commands@.len());
                assert(commands@.len() == self.commands@.len() + k);
            }
            let ghost prev_dv = commands.deep_view();
            commands.push((name, template));
            proof {
                assert(commands@.len() == self.commands@.len() + k + 1);
                assert(commands.deep_view() =~= prev_dv.push(pushed));
                assert(prev_dv.push(pushed) =~= self.commands.deep_view()
                    + self.internal_commands.deep_view().take(k + 1));
            }
            k += 1;
        }
        proof {
            assert(commands.deep_view() =~= self.commands.deep_view()
                + self.internal_commands.deep_view());
        }
        commands
    }
}

/// Law: loading then listing reproduces exactly the non-internal command
/// names, in file order — the listed names of the public group are the
/// parsed names with the internal ones removed.
pub proof fn lemma_load_then_list(es: Seq<SpecEntry>)
    ensures
        names_of(public_of(es)) == non_internal_names(names_of(es)),
    decreases es.len(),
{
    if es.len() == 0 {
        assert(names_of(public_of(es)) =~= Seq::<Seq<char>>::empty());
        assert(names_of(es) =~= Seq::<Seq<char>>::empty());
    } else {
        let prefix = es.drop_last();
        let e = es.last();
        lemma_load_then_list(prefix);
        assert(names_of(es).drop_last() =~= names_of(prefix));
        assert(names_of(es).last() == e.0);
        assert(names_of(es) =~= names_of(prefix).push(e.0));
        if is_internal(e.0) {
            assert(names_of(public_of(es)) =~= names_of(public_of(prefix)));
        } else {
            assert(names_of(public_of(es)) =~= names_of(public_of(prefix)).push(e.0));
            assert(non_internal_names(names_of(es)) == non_internal_names(names_of(prefix)).push(e.0));
        }
    }
}

} // verus!
