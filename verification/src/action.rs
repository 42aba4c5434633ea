//! What a run of the tool does, decided from its arguments, and the pure
//! steps of generating and listing templates.

use vstd::prelude::*;

use crate::args::GitIgnoreArgs;
use crate::config::{string_views, Config};
use crate::config::{lemma_split_once_first, split_once_chars, split_once_spec};
use crate::error::{CliError, GenerateError};
use crate::patch::{parse_spec, patch_spec, serialize_spec, templates_view, Patcher};
use crate::text::{
    char_views, chars_to_string, dedup, lemma_dedup, split_chars, split_spec, string_chars,
    trim_chars, trim_spec, lowercase, str_lowercase, str_to_chars, append_chars,
};

verus! {

/// What a run does.
#[derive(Debug)]
pub enum CliAction {
    ShowVersion,
    ShowInfo,
    ListTemplates,
    UpdateOnly,
    Compact,
    Generate { templates: Vec<String>, patch: bool },
}

/// The non-empty trimmed pieces of the comma-separated arguments, in order.
pub open spec fn template_pieces(args: Seq<Seq<char>>) -> Seq<Seq<char>>
    decreases args.len(),
{
    if args.len() == 0 {
        seq![]
    } else {
        template_pieces(args.drop_last()) + nonempty_trimmed(split_spec(args.last(), ','))
    }
}

/// The non-empty trimmed pieces, in order.
pub open spec fn nonempty_trimmed(ps: Seq<Seq<char>>) -> Seq<Seq<char>>
    decreases ps.len(),
{
    if ps.len() == 0 {
        seq![]
    } else {
        let prev = nonempty_trimmed(ps.drop_last());
        if trim_spec(ps.last()).len() > 0 {
            prev.push(trim_spec(ps.last()))
        } else {
            prev
        }
    }
}

/// The templates that the arguments request: each non-empty trimmed piece of
/// the comma-separated arguments, once, in the order of first mention.
pub open spec fn requested_templates(args: Seq<Seq<char>>) -> Seq<Seq<char>> {
    dedup(template_pieces(args))
}

/// Decides whether `v` holds a string equal to `s`.
fn contains_string(v: &Vec<String>, s: &String) -> (r: bool)
    ensures
        r == string_views(v@).contains(s@),
{
    let mut i: usize = 0;
    while i < v.len()
        invariant
            i <= v.len(),
            forall|j: int| 0 <= j < i ==> (#[trigger] v@[j])@ != s@,
        decreases v.len() - i,
    {
        if v[i] == *s {
            assert(string_views(v@)[i as int] == s@);
            return true;
        }
        i = i + 1;
    }
    proof {
        if string_views(v@).contains(s@) {
            let j = choose|j: int| 0 <= j < string_views(v@).len() && string_views(v@)[j] == s@;
            assert(v@[j]@ == s@);
        }
    }
    false
}

/// The templates that the arguments request.
pub fn requested(args: &Vec<String>) -> (r: Vec<String>)
    ensures
        string_views(r@) == requested_templates(string_views(args@)),
{
    let ghost av = string_views(args@);
    // All non-empty trimmed pieces.
    let mut pieces: Vec<String> = Vec::new();
    let mut a: usize = 0;
    assert(av.take(0) =~= Seq::<Seq<char>>::empty());
    assert(string_views(pieces@) =~= Seq::<Seq<char>>::empty());
    while a < args.len()
        invariant
            av == string_views(args@),
            a <= args.len(),
            string_views(pieces@) == template_pieces(av.take(a as int)),
        decreases args.len() - a,
    {
        let chars = string_chars(&args[a]);
        let parts = split_chars(&chars, ',');
        let ghost ps = char_views(parts@);
        let ghost base = string_views(pieces@);
        let mut p: usize = 0;
        assert(ps.take(0) =~= Seq::<Seq<char>>::empty());
        assert(base + nonempty_trimmed(ps.take(0)) =~= base);
        while p < parts.len()
            invariant
                ps == char_views(parts@),
                p <= parts.len(),
                string_views(pieces@) == base + nonempty_trimmed(ps.take(p as int)),
            decreases parts.len() - p,
        {
            assert(ps.take(p + 1).drop_last() =~= ps.take(p as int));
            assert(ps.take(p + 1).last() == ps[p as int]);
            assert(parts@[p as int]@ == ps[p as int]);
            let t = trim_chars(&parts[p]);
            if t.len() > 0 {
                let ghost before = string_views(pieces@);
                pieces.push(chars_to_string(&t));
                assert(string_views(pieces@) =~= before.push(t@));
            }
            p = p + 1;
        }
        assert(ps.take(parts.len() as int) =~= ps);
        assert(av.take(a + 1).drop_last() =~= av.take(a as int));
        assert(av.take(a + 1).last() == av[a as int]);
        a = a + 1;
    }
    assert(av.take(args.len() as int) =~= av);
    // Each piece once, in the order of first mention.
    let ghost pv = string_views(pieces@);
    let mut r: Vec<String> = Vec::new();
    let mut i: usize = 0;
    assert(pv.take(0) =~= Seq::<Seq<char>>::empty());
    assert(string_views(r@) =~= Seq::<Seq<char>>::empty());
    while i < pieces.len()
        invariant
            pv == string_views(pieces@),
            i <= pieces.len(),
            string_views(r@) == dedup(pv.take(i as int)),
        decreases pieces.len() - i,
    {
        let ghost prefix = pv.take(i as int);
        assert(pv.take(i + 1).drop_last() =~= prefix);
        assert(pv.take(i + 1).last() == pv[i as int]);
        proof {
            lemma_dedup(prefix);
        }
        if !contains_string(&r, &pieces[i]) {
            let ghost before = string_views(r@);
            r.push(pieces[i].clone());
            assert(string_views(r@) =~= before.push(pv[i as int]));
        }
        i = i + 1;
    }
    assert(pv.take(pieces.len() as int) =~= pv);
    r
}

impl CliAction {
    /// Resolves the `CliAction` from `GitIgnoreArgs`: the first of version,
    /// info, list and compact that is asked for; otherwise generating the
    /// requested templates, or only updating when none is requested and an
    /// update is asked for.
    ///
    /// # Errors
    /// Returns `CliError::Discovery` if templates are not specified.
    pub fn from_args(args: &GitIgnoreArgs, _config: &Config) -> (r: Result<Self, CliError>)
        ensures
            args.version ==> r matches Ok(CliAction::ShowVersion),
            !args.version && args.info ==> r matches Ok(CliAction::ShowInfo),
            !args.version && !args.info && args.list ==> r matches Ok(CliAction::ListTemplates),
            !args.version && !args.info && !args.list && args.compact ==> r matches Ok(
                CliAction::Compact,
            ),
            !args.version && !args.info && !args.list && !args.compact ==> {
                let req = requested_templates(string_views(args.templates@));
                if req.len() == 0 {
                    if args.update || args.force {
                        r matches Ok(CliAction::UpdateOnly)
                    } else {
                        r matches Err(CliError::Discovery(m)) && m@ == "No templates specified."@
                    }
                } else {
                    r matches Ok(CliAction::Generate { templates, patch }) && string_views(
                        templates@,
                    ) == req && patch == args.patch
                }
            },
    {
        if args.version {
            Ok(CliAction::ShowVersion)
        } else if args.info {
            Ok(CliAction::ShowInfo)
        } else if args.list {
            Ok(CliAction::ListTemplates)
        } else if args.compact {
            Ok(CliAction::Compact)
        } else {
            let templates = requested(&args.templates);
            if templates.len() == 0 {
                if args.update || args.force {
                    Ok(CliAction::UpdateOnly)
                } else {
                    Err(CliError::Discovery("No templates specified.".to_owned()))
                }
            } else {
                Ok(CliAction::Generate { templates, patch: args.patch })
            }
        }
    }
}

/// The index keys under which a requested template is looked up: for
/// `source/name`, that source's key of the name in lowercase; otherwise the
/// key of the template's name in lowercase in each active source, in order.
pub open spec fn template_keys_spec(template: Seq<char>, active: Seq<Seq<char>>) -> Seq<Seq<char>> {
    match split_once_spec(template, '/') {
        Some((source, name)) => seq![source + seq!['/'] + str_lowercase(name)],
        None => active.map_values(|s: Seq<char>| s + seq!['/'] + str_lowercase(template)),
    }
}

/// The index keys under which a requested template is looked up.
pub fn template_keys(template: &String, active: &Vec<String>) -> (r: Vec<String>)
    ensures
        string_views(r@) == template_keys_spec(template@, string_views(active@)),
{
    let chars = string_chars(template);
    match split_once_chars(&chars, '/') {
        Some((source, name)) => {
            let name_string = chars_to_string(&name);
            let lower = lowercase(name_string.as_str());
            let lc = string_chars(&lower);
            let mut k = source;
            let ghost src = k@;
            k.push('/');
            append_chars(&mut k, &lc);
            assert(k@ =~= src + seq!['/'] + str_lowercase(name@));
            let mut r: Vec<String> = Vec::new();
            r.push(chars_to_string(&k));
            assert(string_views(r@) =~= template_keys_spec(template@, string_views(active@)));
            r
        },
        None => {
            let lower = lowercase(template.as_str());
            let lc = string_chars(&lower);
            let ghost av = string_views(active@);
            let mut r: Vec<String> = Vec::new();
            let mut i: usize = 0;
            while i < active.len()
                invariant
                    av == string_views(active@),
                    lc@ == str_lowercase(template@),
                    i <= active.len(),
                    string_views(r@) == av.take(i as int).map_values(
                        |s: Seq<char>| s + seq!['/'] + str_lowercase(template@),
                    ),
                decreases active.len() - i,
            {
                let mut k = string_chars(&active[i]);
                assert(k@ == av[i as int]);
                k.push('/');
                append_chars(&mut k, &lc);
                assert(k@ =~= av[i as int] + seq!['/'] + str_lowercase(template@));
                let ghost before = string_views(r@);
                r.push(chars_to_string(&k));
                assert(string_views(r@) =~= before.push(k@));
                assert(av.take(i + 1) =~= av.take(i as int).push(av[i as int]));
                assert(string_views(r@) =~= av.take(i + 1).map_values(
                    |s: Seq<char>| s + seq!['/'] + str_lowercase(template@),
                ));
                i = i + 1;
            }
            assert(av.take(active.len() as int) =~= av);
            r
        },
    }
}

/// The parts joined with a blank line between each two.
pub open spec fn join_blank_line(parts: Seq<Seq<char>>) -> Seq<char>
    decreases parts.len(),
{
    if parts.len() == 0 {
        seq![]
    } else if parts.len() == 1 {
        parts[0]
    } else {
        join_blank_line(parts.drop_last()) + seq!['\n', '\n'] + parts.last()
    }
}

/// The content of a template found in several sources: each source's
/// content trimmed, with a blank line between each two; nothing when that
/// is empty.
pub open spec fn merged_template_spec(found: Seq<Seq<char>>) -> Option<Seq<char>> {
    let joined = join_blank_line(found.map_values(|c: Seq<char>| trim_spec(c)));
    if joined.len() == 0 {
        None
    } else {
        Some(joined)
    }
}

/// The content of a template found in several sources.
pub fn merge_template_parts(found: &Vec<String>) -> (r: Option<String>)
    ensures
        r matches Some(c) ==> merged_template_spec(string_views(found@)) == Some(c@),
        r is None ==> merged_template_spec(string_views(found@)) is None,
{
    let ghost fv = string_views(found@);
    let ghost tv = fv.map_values(|c: Seq<char>| trim_spec(c));
    let mut out: Vec<char> = Vec::new();
    let mut i: usize = 0;
    assert(tv.take(0) =~= Seq::<Seq<char>>::empty());
    while i < found.len()
        invariant
            fv == string_views(found@),
            tv == fv.map_values(|c: Seq<char>| trim_spec(c)),
            i <= found.len(),
            out@ == join_blank_line(tv.take(i as int)),
        decreases found.len() - i,
    {
        let t = trim_chars(&string_chars(&found[i]));
        assert(t@ == tv[i as int]);
        if i > 0 {
            out.push('\n');
            out.push('\n');
        }
        append_chars(&mut out, &t);
        assert(tv.take(i + 1).drop_last() =~= tv.take(i as int));
        assert(tv.take(i + 1).last() == tv[i as int]);
        if i == 0 {
            assert(out@ =~= join_blank_line(tv.take(1)));
        } else {
            assert(out@ =~= join_blank_line(tv.take(i + 1)));
        }
        i = i + 1;
    }
    assert(tv.take(found.len() as int) =~= tv);
    if out.len() == 0 {
        None
    } else {
        Some(chars_to_string(&out))
    }
}

/// What generating a `.gitignore` does with the result.
#[derive(Debug)]
pub enum GitignorePlan {
    /// Write this content to the `.gitignore` file.
    Write(String),
    /// The file already has this content.
    UpToDate,
    /// Print this text.
    Print(String),
}

/// The new content of a `.gitignore` file: its blocks patched with the
/// templates, serialized.
pub open spec fn generated_content(existing: Seq<char>, templates: Seq<(Seq<char>, Seq<char>)>) -> Seq<
    char,
> {
    serialize_spec(patch_spec(parse_spec(existing), templates))
}

/// Decides what generating a `.gitignore` does, given the file's current
/// content (empty when there is none), the templates found (name and
/// content) and whether to patch the file: patching writes the new content
/// when it differs from the current one; otherwise the new content is
/// printed, trimmed, with a final newline.
///
/// # Errors
/// Returns `GenerateError::Discovery` when no template was found.
pub fn plan_gitignore(existing: &str, templates: Vec<(String, String)>, patch: bool) -> (r: Result<
    GitignorePlan,
    GenerateError,
>)
    ensures
        templates@.len() == 0 ==> (r matches Err(GenerateError::Discovery(m)) && m@
            == "No matching templates found."@),
        templates@.len() > 0 ==> {
            let new = generated_content(existing@, templates_view(templates@));
            if patch {
                if new != existing@ {
                    r matches Ok(GitignorePlan::Write(c)) && c@ == new
                } else {
                    r matches Ok(GitignorePlan::UpToDate)
                }
            } else {
                r matches Ok(GitignorePlan::Print(t)) && t@ == trim_spec(new).push('\n')
            }
        },
{
    if templates.len() == 0 {
        return Err(GenerateError::Discovery("No matching templates found.".to_owned()));
    }
    let mut patcher = Patcher::parse(existing);
    patcher.patch(templates);
    let new_content = patcher.serialize();
    if patch {
        let old = existing.to_owned();
        if new_content == old {
            Ok(GitignorePlan::UpToDate)
        } else {
            Ok(GitignorePlan::Write(new_content))
        }
    } else {
        let mut t = trim_chars(&string_chars(&new_content));
        t.push('\n');
        Ok(GitignorePlan::Print(chars_to_string(&t)))
    }
}

/// A request `s/n` naming a source `s` (without `/`) is looked up under one
/// key only: the source's name character for character, `/`, and the
/// template name in lowercase; a request without `/` is looked up in each
/// active source, in order, under that source's name, `/` and the request
/// in lowercase.
pub proof fn law_template_keys_keep_source(
    s: Seq<char>,
    n: Seq<char>,
    t: Seq<char>,
    active: Seq<Seq<char>>,
)
    requires
        !s.contains('/'),
    ensures
        template_keys_spec(s + seq!['/'] + n, active) == seq![s + seq!['/'] + str_lowercase(n)],
        template_keys_spec(s + seq!['/'] + n, active)[0].take(s.len() + 1int) == s + seq!['/'],
        !t.contains('/') ==> template_keys_spec(t, active).len() == active.len(),
        !t.contains('/') ==> forall|i: int|
            0 <= i < active.len() ==> #[trigger] template_keys_spec(t, active)[i] == active[i] + seq!['/']
                + str_lowercase(t),
{
    lemma_split_once_first(s, '/', n);
    let k = s + seq!['/'] + str_lowercase(n);
    assert(k.take(s.len() + 1int) =~= s + seq!['/']);
    if !t.contains('/') {
        crate::config::lemma_find_char(t, '/');
        if crate::config::find_char(t, '/') is Some {
            let i = crate::config::find_char(t, '/')->0;
            assert(t.contains(t[i]));
        }
    }
}


} // verus!
