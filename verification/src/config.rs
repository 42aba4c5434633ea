//! Where templates come from and where the local data lives.
//!
//! The list of template sources is the default source, overridden or
//! extended by the `name=url` entries of a comma-separated list (which the
//! tool reads from the `GIT_IGNORE_SOURCE_LIST` environment variable),
//! ordered by name.

use vstd::prelude::*;

use crate::order::{compare_strings, lemma_lex_asymmetric, lemma_lex_irreflexive, lemma_lex_total, lemma_lex_transitive, lemma_str_key_injective, lex_lt, str_key, Order};
use crate::text::{char_views, chars_to_string, concat_str_string, split_chars, split_spec, str_to_chars, trim_chars, trim_spec};

verus! {

/// `std::path::PathBuf`, carried opaquely.
#[verifier::external_type_specification]
#[verifier::external_body]
pub struct ExPathBuf(std::path::PathBuf);

/// The repository of the default template source.
pub const DEFAULT_REPO_URL: &'static str = "https://github.com/github/gitignore.git";

/// The name of the default template source.
pub const DEFAULT_SOURCE_NAME: &'static str = "default";

/// A repository of `.gitignore` templates.
#[derive(Debug)]
pub struct TemplateSource {
    pub name: String,
    pub url: String,
    pub path: std::path::PathBuf,
}

/// The configuration of a run.
#[derive(Debug)]
pub struct Config {
    pub sources: Vec<TemplateSource>,
    pub db_path: std::path::PathBuf,
    pub fst_path: std::path::PathBuf,
    pub project_path: std::path::PathBuf,
}

/// The index of the first `c` in `s`, if there is one.
pub open spec fn find_char(s: Seq<char>, c: char) -> Option<int>
    decreases s.len(),
{
    if s.len() == 0 {
        None
    } else if s[0] == c {
        Some(0)
    } else {
        match find_char(s.drop_first(), c) {
            Some(i) => Some(i + 1),
            None => None,
        }
    }
}

/// `s` split at its first `c`, as `str::split_once` splits it.
pub open spec fn split_once_spec(s: Seq<char>, c: char) -> Option<(Seq<char>, Seq<char>)> {
    match find_char(s, c) {
        Some(i) => Some((s.take(i), s.skip(i + 1))),
        None => None,
    }
}

pub proof fn lemma_find_char(s: Seq<char>, c: char)
    ensures
        find_char(s, c) matches Some(i) ==> 0 <= i < s.len() && s[i] == c && forall|j: int|
            0 <= j < i ==> s[j] != c,
        find_char(s, c) is None ==> forall|j: int| 0 <= j < s.len() ==> s[j] != c,
    decreases s.len(),
{
    if s.len() > 0 && s[0] != c {
        lemma_find_char(s.drop_first(), c);
        assert forall|j: int| 0 < j < s.len() implies s[j] == s.drop_first()[j - 1] by {}
    }
}

/// Splits `s` at its first `c`.
pub fn split_once_chars(s: &Vec<char>, c: char) -> (r: Option<(Vec<char>, Vec<char>)>)
    ensures
        r matches Some((a, b)) ==> split_once_spec(s@, c) == Some((a@, b@)),
        r is None ==> split_once_spec(s@, c) is None,
{
    proof {
        lemma_find_char(s@, c);
    }
    let mut i: usize = 0;
    while i < s.len() && s[i] != c
        invariant
            i <= s.len(),
            forall|j: int| 0 <= j < i ==> s@[j] != c,
        decreases s.len() - i,
    {
        i = i + 1;
    }
    if i == s.len() {
        proof {
            if let Some(k) = find_char(s@, c) {
                assert(s@[k] == c);
            }
        }
        None
    } else {
        proof {
            match find_char(s@, c) {
                Some(k) => {
                    if k < i {
                        assert(s@[k] != c);
                    }
                    if k > i {
                        assert(s@[i as int] != c);
                    }
                },
                None => {
                    assert(s@[i as int] != c);
                },
            }
        }
        let a = crate::text::copy_range(s, 0, i);
        let b = crate::text::copy_range(s, i + 1, s.len());
        assert(a@ =~= s@.take(i as int));
        assert(b@ =~= s@.skip(i + 1));
        Some((a, b))
    }
}

/// The source that a piece of the list names, if it is a `name=url` pair
/// whose trimmed name and url are both non-empty.
pub open spec fn part_entry(p: Seq<char>) -> Option<(Seq<char>, Seq<char>)> {
    match split_once_spec(trim_spec(p), '=') {
        Some((n, u)) => if trim_spec(n).len() > 0 && trim_spec(u).len() > 0 {
            Some((trim_spec(n), trim_spec(u)))
        } else {
            None
        },
        None => None,
    }
}

/// A piece of the list that is neither empty nor a `name=url` pair.
pub open spec fn part_invalid(p: Seq<char>) -> bool {
    trim_spec(p).len() > 0 && split_once_spec(trim_spec(p), '=') is None
}

/// The sources named by the pieces, in order.
pub open spec fn part_entries(parts: Seq<Seq<char>>) -> Seq<(Seq<char>, Seq<char>)>
    decreases parts.len(),
{
    if parts.len() == 0 {
        seq![]
    } else {
        let prev = part_entries(parts.drop_last());
        match part_entry(parts.last()) {
            Some(e) => prev.push(e),
            None => prev,
        }
    }
}

/// The trimmed pieces that are neither empty nor `name=url` pairs, in order.
pub open spec fn invalid_parts(parts: Seq<Seq<char>>) -> Seq<Seq<char>>
    decreases parts.len(),
{
    if parts.len() == 0 {
        seq![]
    } else {
        let prev = invalid_parts(parts.drop_last());
        if part_invalid(parts.last()) {
            prev.push(trim_spec(parts.last()))
        } else {
            prev
        }
    }
}

/// The url of each source name after the assignments, in order, on top of
/// `m`: a later assignment of a name replaces an earlier one.
pub open spec fn assign_all(m: Map<Seq<char>, Seq<char>>, es: Seq<(Seq<char>, Seq<char>)>) -> Map<
    Seq<char>,
    Seq<char>,
>
    decreases es.len(),
{
    if es.len() == 0 {
        m
    } else {
        assign_all(m, es.drop_last()).insert(es.last().0, es.last().1)
    }
}

/// The url of each source name that a source list sets up: the default
/// source, then the list's `name=url` pairs in order.
pub open spec fn source_map(list: Seq<char>) -> Map<Seq<char>, Seq<char>> {
    assign_all(
        map![DEFAULT_SOURCE_NAME@ => DEFAULT_REPO_URL@],
        part_entries(split_spec(list, ',')),
    )
}

/// The pairs are strictly ordered by name.
pub open spec fn sorted_by_name(es: Seq<(Seq<char>, Seq<char>)>) -> bool {
    forall|i: int, j: int|
        0 <= i < j < es.len() ==> lex_lt(str_key(#[trigger] es[i].0), str_key(#[trigger] es[j].0))
}

/// The pairs list the map: each pair is an entry of it, and each of its keys
/// is the name of a pair.
pub open spec fn lists_map(es: Seq<(Seq<char>, Seq<char>)>, m: Map<Seq<char>, Seq<char>>) -> bool {
    &&& forall|i: int| 0 <= i < es.len() ==> #[trigger] m.contains_key(es[i].0) && m[es[i].0] == es[i].1
    &&& forall|k: Seq<char>| #[trigger] m.contains_key(k) ==> exists|i: int| 0 <= i < es.len() && es[i].0 == k
}

/// The (name, url) pairs of a list of strings.
pub open spec fn pair_views(v: Seq<(String, String)>) -> Seq<(Seq<char>, Seq<char>)> {
    v.map_values(|p: (String, String)| (p.0@, p.1@))
}

/// The string views of a list of strings.
pub open spec fn string_views(v: Seq<String>) -> Seq<Seq<char>> {
    v.map_values(|s: String| s@)
}

/// Sets the url of `name` in a name-ordered list of pairs: replaces it when
/// the name is listed, otherwise inserts the pair where the order puts it.
fn assign_sorted(es: &mut Vec<(String, String)>, name: String, url: String)
    requires
        sorted_by_name(pair_views(old(es)@)),
    ensures
        sorted_by_name(pair_views(final(es)@)),
        forall|m: Map<Seq<char>, Seq<char>>|
            lists_map(pair_views(old(es)@), m) ==> lists_map(
                pair_views(final(es)@),
                #[trigger] m.insert(name@, url@),
            ),
{
    let ghost old_v = pair_views(es@);
    let mut pos: usize = 0;
    while pos < es.len() && matches!(compare_strings(&es[pos].0, &name), Order::Less)
        invariant
            pos <= es.len(),
            old_v == pair_views(es@),
            forall|i: int| 0 <= i < pos ==> lex_lt(str_key(#[trigger] old_v[i].0), str_key(name@)),
        decreases es.len() - pos,
    {
        pos = pos + 1;
    }
    let equal = pos < es.len() && matches!(compare_strings(&es[pos].0, &name), Order::Equal);
    proof {
        if pos < old_v.len() && !equal {
            assert(!lex_lt(str_key(old_v[pos as int].0), str_key(name@)));
            lemma_lex_total(str_key(old_v[pos as int].0), str_key(name@));
        }
    }
    if equal {
        proof {
            lemma_str_key_injective(old_v[pos as int].0, name@);
        }
        es.set(pos, (name, url));
        let ghost nv = pair_views(es@);
        assert(nv =~= old_v.update(pos as int, (old_v[pos as int].0, url@)));
        assert(sorted_by_name(nv)) by {
            assert forall|i: int, j: int| 0 <= i < j < nv.len() implies lex_lt(
                str_key(#[trigger] nv[i].0),
                str_key(#[trigger] nv[j].0),
            ) by {
                assert(nv[i].0 == old_v[i].0);
                assert(nv[j].0 == old_v[j].0);
            }
        }
        assert forall|m: Map<Seq<char>, Seq<char>>| lists_map(old_v, m) implies lists_map(
            nv,
            #[trigger] m.insert(old_v[pos as int].0, url@),
        ) by {
            let m2 = m.insert(old_v[pos as int].0, url@);
            assert forall|i: int| 0 <= i < nv.len() implies #[trigger] m2.contains_key(nv[i].0)
                && m2[nv[i].0] == nv[i].1 by {
                if i != pos {
                    assert(nv[i] == old_v[i]);
                    assert(m.contains_key(old_v[i].0));
                    if old_v[i].0 == old_v[pos as int].0 {
                        if i < pos {
                            assert(lex_lt(str_key(old_v[i].0), str_key(old_v[pos as int].0)));
                        } else {
                            assert(lex_lt(str_key(old_v[pos as int].0), str_key(old_v[i].0)));
                        }
                        lemma_lex_irreflexive(str_key(old_v[i].0));
                    }
                }
            }
            assert forall|k: Seq<char>| #[trigger] m2.contains_key(k) implies exists|i: int|
                0 <= i < nv.len() && nv[i].0 == k by {
                if k == old_v[pos as int].0 {
                    assert(nv[pos as int].0 == k);
                } else {
                    assert(m.contains_key(k));
                    let i = choose|i: int| 0 <= i < old_v.len() && old_v[i].0 == k;
                    assert(nv[i].0 == k);
                }
            }
        }
    } else {
        let ghost key = name@;
        let ghost u = url@;
        es.insert(pos, (name, url));
        let ghost nv = pair_views(es@);
        assert(nv =~= old_v.insert(pos as int, (key, u)));
        assert forall|t: int| pos <= t < old_v.len() implies lex_lt(str_key(key), str_key(#[trigger] old_v[t].0)) by {
            assert(lex_lt(str_key(key), str_key(old_v[pos as int].0)));
            if t > pos {
                assert(lex_lt(str_key(old_v[pos as int].0), str_key(old_v[t].0)));
                lemma_lex_transitive(str_key(key), str_key(old_v[pos as int].0), str_key(old_v[t].0));
            }
        }
        assert(sorted_by_name(nv)) by {
            assert forall|i: int, j: int| 0 <= i < j < nv.len() implies lex_lt(
                str_key(#[trigger] nv[i].0),
                str_key(#[trigger] nv[j].0),
            ) by {
                if j < pos {
                    assert(nv[i] == old_v[i]);
                    assert(nv[j] == old_v[j]);
                } else if j == pos {
                    assert(nv[i] == old_v[i]);
                } else if i == pos {
                    assert(nv[j] == old_v[j - 1]);
                } else if i < pos {
                    assert(nv[i] == old_v[i]);
                    assert(nv[j] == old_v[j - 1]);
                    lemma_lex_transitive(str_key(old_v[i].0), str_key(key), str_key(old_v[j - 1].0));
                } else {
                    assert(nv[i] == old_v[i - 1]);
                    assert(nv[j] == old_v[j - 1]);
                }
            }
        }
        assert forall|m: Map<Seq<char>, Seq<char>>| lists_map(old_v, m) implies lists_map(
            nv,
            #[trigger] m.insert(key, u),
        ) by {
            let m2 = m.insert(key, u);
            assert forall|i: int| 0 <= i < nv.len() implies #[trigger] m2.contains_key(nv[i].0)
                && m2[nv[i].0] == nv[i].1 by {
                if i != pos {
                    let oi = if i < pos {
                        i
                    } else {
                        i - 1
                    };
                    assert(nv[i] == old_v[oi]);
                    assert(m.contains_key(old_v[oi].0));
                    if old_v[oi].0 == key {
                        lemma_lex_irreflexive(str_key(key));
                        if oi < pos {
                        } else {
                            assert(lex_lt(str_key(old_v[pos as int].0), str_key(old_v[oi].0)) || pos == oi);
                            if pos < oi {
                                lemma_lex_asymmetric(str_key(key), str_key(old_v[pos as int].0));
                                lemma_lex_transitive(str_key(key), str_key(old_v[pos as int].0), str_key(key));
                            }
                        }
                    }
                }
            }
            assert forall|k: Seq<char>| #[trigger] m2.contains_key(k) implies exists|i: int|
                0 <= i < nv.len() && nv[i].0 == k by {
                if k == key {
                    assert(nv[pos as int].0 == k);
                } else {
                    assert(m.contains_key(k));
                    let i = choose|i: int| 0 <= i < old_v.len() && old_v[i].0 == k;
                    if i < pos {
                        assert(nv[i].0 == k);
                    } else {
                        assert(nv[i + 1].0 == k);
                    }
                }
            }
        }
    }
}

/// The template sources that a comma-separated list of `name=url` pairs sets
/// up on top of the default source, ordered by name, and the pieces of the
/// list that are not `name=url` pairs (for a warning).
pub fn source_list(list: &str) -> (r: (Vec<(String, String)>, Vec<String>))
    ensures
        sorted_by_name(pair_views(r.0@)),
        lists_map(pair_views(r.0@), source_map(list@)),
        string_views(r.1@) == invalid_parts(split_spec(list@, ',')),
{
    let chars = str_to_chars(list);
    let parts = split_chars(&chars, ',');
    let ghost ps = char_views(parts@);
    let mut entries: Vec<(String, String)> = Vec::new();
    entries.push((DEFAULT_SOURCE_NAME.to_owned(), DEFAULT_REPO_URL.to_owned()));
    let ghost m0 = map![DEFAULT_SOURCE_NAME@ => DEFAULT_REPO_URL@];
    let mut invalid: Vec<String> = Vec::new();
    proof {
        let v = pair_views(entries@);
        assert(v.len() == 1);
        assert(v[0] == (DEFAULT_SOURCE_NAME@, DEFAULT_REPO_URL@));
        assert forall|k: Seq<char>| #[trigger] m0.contains_key(k) implies exists|i: int|
            0 <= i < v.len() && v[i].0 == k by {
            assert(v[0].0 == k);
        }
        assert(ps.take(0) =~= Seq::<Seq<char>>::empty());
        assert(string_views(invalid@) =~= Seq::<Seq<char>>::empty());
    }
    let mut i: usize = 0;
    while i < parts.len()
        invariant
            ps == char_views(parts@),
            ps == split_spec(list@, ','),
            i <= parts.len(),
            sorted_by_name(pair_views(entries@)),
            lists_map(pair_views(entries@), assign_all(m0, part_entries(ps.take(i as int)))),
            string_views(invalid@) == invalid_parts(ps.take(i as int)),
        decreases parts.len() - i,
    {
        assert(ps.take(i + 1).drop_last() =~= ps.take(i as int));
        assert(ps.take(i + 1).last() == ps[i as int]);
        assert(parts@[i as int]@ == ps[i as int]);
        let part = trim_chars(&parts[i]);
        if part.len() > 0 {
            match split_once_chars(&part, '=') {
                Some((n, u)) => {
                    let name = trim_chars(&n);
                    let url = trim_chars(&u);
                    if name.len() > 0 && url.len() > 0 {
                        let ghost m = assign_all(m0, part_entries(ps.take(i as int)));
                        assign_sorted(&mut entries, chars_to_string(&name), chars_to_string(&url));
                        assert(part_entries(ps.take(i + 1)) =~= part_entries(ps.take(i as int)).push(
                            (name@, url@),
                        ));
                        let ghost pe = part_entries(ps.take(i + 1));
                        assert(pe.drop_last() =~= part_entries(ps.take(i as int)));
                        assert(pe.last() == (name@, url@));
                        assert(assign_all(m0, pe) == m.insert(name@, url@));
                    }
                },
                None => {
                    let ghost before = string_views(invalid@);
                    invalid.push(chars_to_string(&part));
                    assert(string_views(invalid@) =~= before.push(part@));
                },
            }
        }
        i = i + 1;
    }
    assert(ps.take(parts.len() as int) =~= ps);
    (entries, invalid)
}

/// The directory of a source's clone, relative to the data directory:
/// `sources/` followed by the source's name.
pub fn source_dir(name: &String) -> (r: String)
    ensures
        r@ == "sources/"@ + name@,
{
    concat_str_string("sources/", name)
}

/// Text without `c`, then `c`, then anything, splits at that `c`: into the
/// text before it and everything after it.
pub proof fn lemma_split_once_first(s: Seq<char>, c: char, n: Seq<char>)
    requires
        !s.contains(c),
    ensures
        split_once_spec(s + seq![c] + n, c) == Some((s, n)),
{
    let t = s + seq![c] + n;
    lemma_find_char(t, c);
    assert(t[s.len() as int] == c);
    assert forall|j: int| 0 <= j < s.len() implies t[j] != c by {
        assert(t[j] == s[j]);
        if s[j] == c {
            assert(s.contains(c));
        }
    }
    let i = find_char(t, c)->0;
    assert(i == s.len());
    assert(t.take(i) =~= s);
    assert(t.skip(i + 1) =~= n);
}

} // verus!
