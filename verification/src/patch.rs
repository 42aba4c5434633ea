//! Block-based management of `.gitignore` files.
//!
//! A `.gitignore` file is read as a sequence of blocks: custom content that
//! the user wrote, and managed sections that this tool owns, each delimited
//! by a start marker line and an end marker line that carry the template's
//! name:
//!
//! ```gitignore
//! # git-ignore-start: Rust
//! target/
//! # git-ignore-end: Rust
//! ```
//!
//! Patching replaces the content of a managed section in place when a
//! template of the same name (compared case-insensitively) is requested, and
//! appends a new section for every other requested template. Custom content
//! is never touched.

use vstd::prelude::*;

use crate::defs::{END_MARKER_PREFIX, START_MARKER_PREFIX};
use crate::text::{
    append_chars, chars_to_string, has_prefix, lines_spec, str_to_chars, string_chars, trim_chars,
    trim_end_chars, trim_end_spec, trim_spec, split_into_lines, char_views, chars_eq, starts_with,
    copy_range, lowercase, str_lowercase, strip_blank_lines, strip_blank_lines_chars,
};

verus! {

/// The mathematical value of a [`Block`].
pub enum BlockView {
    Custom(Seq<char>),
    Managed { name: Seq<char>, content: Seq<char> },
}

/// Represents a discrete section of a `.gitignore` file.
#[derive(Debug, PartialEq, Eq)]
pub enum Block {
    /// Unmanaged content (e.g., user-defined rules or comments).
    Custom(String),
    /// A template section managed by the tool, delimited by start/end markers.
    Managed { name: String, content: String },
}

impl View for Block {
    type V = BlockView;

    open spec fn view(&self) -> BlockView {
        match self {
            Block::Custom(c) => BlockView::Custom(c@),
            Block::Managed { name, content } => BlockView::Managed { name: name@, content: content@ },
        }
    }
}

/// The line that opens the managed section `name`.
pub open spec fn start_line(name: Seq<char>) -> Seq<char> {
    START_MARKER_PREFIX@ + name
}

/// The line that closes the managed section `name`.
pub open spec fn end_line(name: Seq<char>) -> Seq<char> {
    END_MARKER_PREFIX@ + name
}

/// Some block of the sequence is a managed section.
pub open spec fn has_managed(bs: Seq<BlockView>) -> bool {
    exists|i: int| 0 <= i < bs.len() && (#[trigger] bs[i]) is Managed
}

/// The text a block contributes to the file, if any, where `after_section`
/// says whether a managed section comes before it: custom content with its
/// trailing whitespace removed, and its leading blank lines too when it
/// follows a section (so that exactly one blank line separates them), and
/// one newline added (nothing when only whitespace is left); a managed
/// section as its start line, its trimmed content (when not empty) and its
/// end line, each ended by a newline.
pub open spec fn render_spec(b: BlockView, after_section: bool) -> Option<Seq<char>> {
    match b {
        BlockView::Custom(c) => {
            let t = trim_end_spec(c);
            let u = if after_section {
                strip_blank_lines(t)
            } else {
                t
            };
            if u.len() == 0 {
                None
            } else {
                Some(u.push('\n'))
            }
        },
        BlockView::Managed { name, content } => {
            let t = trim_spec(content);
            let body = if t.len() == 0 {
                Seq::<char>::empty()
            } else {
                t.push('\n')
            };
            Some(start_line(name).push('\n') + body + end_line(name).push('\n'))
        },
    }
}

/// The text of a rendered block, as a list of at most one text.
pub open spec fn piece(r: Option<Seq<char>>) -> Seq<Seq<char>> {
    match r {
        Some(t) => seq![t],
        None => seq![],
    }
}

/// The texts of the blocks that render to something, in order, where
/// `after_section` says whether a managed section comes before them all.
pub open spec fn rendered_from(bs: Seq<BlockView>, after_section: bool) -> Seq<Seq<char>>
    decreases bs.len(),
{
    if bs.len() == 0 {
        seq![]
    } else {
        rendered_from(bs.drop_last(), after_section) + piece(
            render_spec(bs.last(), after_section || has_managed(bs.drop_last())),
        )
    }
}

/// The texts of the blocks that render to something, in order.
pub open spec fn rendered(bs: Seq<BlockView>) -> Seq<Seq<char>> {
    rendered_from(bs, false)
}

/// The parts joined with one newline between each two.
pub open spec fn join_newline(parts: Seq<Seq<char>>) -> Seq<char>
    decreases parts.len(),
{
    if parts.len() == 0 {
        seq![]
    } else if parts.len() == 1 {
        parts[0]
    } else {
        join_newline(parts.drop_last()).push('\n') + parts.last()
    }
}

/// The file text of a block sequence.
pub open spec fn serialize_spec(bs: Seq<BlockView>) -> Seq<char> {
    join_newline(rendered(bs))
}

/// Each line followed by a newline, concatenated.
pub open spec fn join_lines(ls: Seq<Seq<char>>) -> Seq<char>
    decreases ls.len(),
{
    if ls.len() == 0 {
        seq![]
    } else {
        join_lines(ls.drop_last()) + ls.last().push('\n')
    }
}

/// The index of the first line at or after `k` that equals `em`, or the
/// number of lines when there is none.
pub open spec fn find_line(ls: Seq<Seq<char>>, k: int, em: Seq<char>) -> int
    decreases ls.len() - k,
{
    if k < 0 || k >= ls.len() {
        ls.len() as int
    } else if ls[k] == em {
        k
    } else {
        find_line(ls, k + 1, em)
    }
}

pub proof fn lemma_find_line_bounds(ls: Seq<Seq<char>>, k: int, em: Seq<char>)
    requires
        0 <= k <= ls.len(),
    ensures
        k <= find_line(ls, k, em) <= ls.len(),
        find_line(ls, k, em) < ls.len() ==> ls[find_line(ls, k, em)] == em,
        forall|j: int| k <= j < find_line(ls, k, em) ==> ls[j] != em,
    decreases ls.len() - k,
{
    if k < ls.len() && ls[k] != em {
        lemma_find_line_bounds(ls, k + 1, em);
    }
}

/// A custom block for the buffered text, if there is any.
pub open spec fn flush(buf: Seq<char>) -> Seq<BlockView> {
    if buf.len() > 0 {
        seq![BlockView::Custom(buf)]
    } else {
        seq![]
    }
}

/// The blocks read from the lines `ls[i..]`, where `buf` holds the custom
/// text read since the last managed section: a line that starts with the
/// start marker opens a managed section named by the rest of that line, whose
/// content is every following line up to the first line equal to its end
/// line, which is dropped (or up to the end of the file); every other line is
/// custom text.
pub open spec fn parse_from(ls: Seq<Seq<char>>, i: int, buf: Seq<char>) -> Seq<BlockView>
    decreases ls.len() + 1 - i,
{
    if i < 0 || i >= ls.len() {
        flush(buf)
    } else if has_prefix(ls[i], START_MARKER_PREFIX@) {
        let name = ls[i].skip(START_MARKER_PREFIX@.len() as int);
        let j = find_line(ls, i + 1, end_line(name));
        proof {
            lemma_find_line_bounds(ls, i + 1, end_line(name));
        }
        flush(buf) + seq![
            BlockView::Managed { name: name, content: join_lines(ls.subrange(i + 1, j)) },
        ] + parse_from(ls, j + 1, seq![])
    } else {
        parse_from(ls, i + 1, buf + ls[i].push('\n'))
    }
}

/// The blocks of a `.gitignore` text.
pub open spec fn parse_spec(s: Seq<char>) -> Seq<BlockView> {
    parse_from(lines_spec(s), 0, seq![])
}

/// A parser and serializer for block-based `.gitignore` management.
pub struct Patcher {
    blocks: Vec<Block>,
}

impl View for Patcher {
    type V = Seq<BlockView>;

    closed spec fn view(&self) -> Seq<BlockView> {
        self.blocks@.map_values(|b: Block| b@)
    }
}

impl Block {
    /// Renders this block as the text it contributes to a `.gitignore` file,
    /// where `after_section` says whether a managed section comes before it.
    pub fn render(&self, after_section: bool) -> (r: Option<String>)
        ensures
            r matches Some(t) ==> render_spec(self@, after_section) == Some(t@),
            r is None ==> render_spec(self@, after_section) is None,
    {
        match self {
            Block::Custom(c) => {
                let chars = string_chars(c);
                let trimmed = trim_end_chars(&chars);
                let mut t = if after_section {
                    strip_blank_lines_chars(&trimmed)
                } else {
                    trimmed
                };
                if t.len() == 0 {
                    None
                } else {
                    t.push('\n');
                    Some(chars_to_string(&t))
                }
            },
            Block::Managed { name, content } => {
                let name_chars = string_chars(name);
                let mut s = str_to_chars(START_MARKER_PREFIX);
                append_chars(&mut s, &name_chars);
                s.push('\n');
                let content_chars = string_chars(content);
                let mut t = trim_chars(&content_chars);
                let ghost body = if t@.len() == 0 {
                    Seq::<char>::empty()
                } else {
                    t@.push('\n')
                };
                if t.len() > 0 {
                    t.push('\n');
                    append_chars(&mut s, &t);
                } else {
                    assert(s@ =~= s@ + body);
                }
                let mut e = str_to_chars(END_MARKER_PREFIX);
                append_chars(&mut e, &name_chars);
                e.push('\n');
                append_chars(&mut s, &e);
                Some(chars_to_string(&s))
            },
        }
    }
}

/// The key by which template names are compared: the lowercase name.
pub open spec fn key_of(name: Seq<char>) -> Seq<char> {
    str_lowercase(name)
}

/// The (name, content) pairs of a list of templates.
pub open spec fn templates_view(t: Seq<(String, String)>) -> Seq<(Seq<char>, Seq<char>)> {
    t.map_values(|p: (String, String)| (p.0@, p.1@))
}

/// Some template in `ts` has the key `k`.
pub open spec fn key_occurs(ts: Seq<(Seq<char>, Seq<char>)>, k: Seq<char>) -> bool {
    exists|j: int| 0 <= j < ts.len() && key_of(ts[j].0) == k
}

/// The requested templates with one entry per key: when several templates
/// have the same key, the last of them.
pub open spec fn canonical(ts: Seq<(Seq<char>, Seq<char>)>) -> Seq<(Seq<char>, Seq<char>)>
    decreases ts.len(),
{
    if ts.len() == 0 {
        seq![]
    } else if key_occurs(ts.drop_first(), key_of(ts[0].0)) {
        canonical(ts.drop_first())
    } else {
        seq![ts[0]] + canonical(ts.drop_first())
    }
}

/// The first entry of `es` with the key `k`.
pub open spec fn entry_of(es: Seq<(Seq<char>, Seq<char>)>, k: Seq<char>) -> Option<
    (Seq<char>, Seq<char>),
>
    decreases es.len(),
{
    if es.len() == 0 {
        None
    } else if key_of(es[0].0) == k {
        Some(es[0])
    } else {
        entry_of(es.drop_first(), k)
    }
}

/// The managed section that a template becomes: its name, and its content
/// trimmed.
pub open spec fn managed_template(e: (Seq<char>, Seq<char>)) -> BlockView {
    BlockView::Managed { name: e.0, content: trim_spec(e.1) }
}

/// The key of a managed block.
pub open spec fn block_key(b: BlockView) -> Option<Seq<char>> {
    match b {
        BlockView::Managed { name, .. } => Some(key_of(name)),
        BlockView::Custom(_) => None,
    }
}

/// The keys of the managed blocks.
pub open spec fn managed_keys(bs: Seq<BlockView>) -> Set<Seq<char>> {
    Set::new(|k: Seq<char>| exists|i: int| 0 <= i < bs.len() && block_key(bs[i]) == Some(k))
}

/// The blocks with each managed block whose key has an entry, and is not in
/// `done` (the keys of the managed blocks before it), replaced by that entry.
pub open spec fn patch_blocks(
    bs: Seq<BlockView>,
    es: Seq<(Seq<char>, Seq<char>)>,
    done: Set<Seq<char>>,
) -> Seq<BlockView>
    decreases bs.len(),
{
    if bs.len() == 0 {
        seq![]
    } else {
        match bs[0] {
            BlockView::Managed { name, content } => {
                let k = key_of(name);
                let head = if !done.contains(k) && entry_of(es, k) is Some {
                    managed_template(entry_of(es, k)->0)
                } else {
                    bs[0]
                };
                seq![head] + patch_blocks(bs.drop_first(), es, done.insert(k))
            },
            BlockView::Custom(_) => seq![bs[0]] + patch_blocks(bs.drop_first(), es, done),
        }
    }
}

/// The entries whose key is not in `keys`, as managed blocks, in order.
pub open spec fn unmatched(es: Seq<(Seq<char>, Seq<char>)>, keys: Set<Seq<char>>) -> Seq<
    BlockView,
>
    decreases es.len(),
{
    if es.len() == 0 {
        seq![]
    } else {
        let prev = unmatched(es.drop_last(), keys);
        if keys.contains(key_of(es.last().0)) {
            prev
        } else {
            prev.push(managed_template(es.last()))
        }
    }
}

/// The blocks after patching `bs` with the templates `ts`: the first managed
/// block of each requested key takes that template's name and trimmed
/// content, in place; templates whose key has no managed block are appended
/// as new managed blocks; everything else is unchanged.
pub open spec fn patch_spec(bs: Seq<BlockView>, ts: Seq<(Seq<char>, Seq<char>)>) -> Seq<BlockView> {
    let es = canonical(ts);
    patch_blocks(bs, es, Set::empty()) + unmatched(es, managed_keys(bs))
}

/// Every entry of `canonical(ts)` is an entry of `ts`, and no two entries of
/// it have the same key.
pub proof fn lemma_canonical(ts: Seq<(Seq<char>, Seq<char>)>)
    ensures
        forall|a: int|
            0 <= a < canonical(ts).len() ==> exists|j: int|
                0 <= j < ts.len() && #[trigger] canonical(ts)[a] == ts[j],
        forall|a: int, b: int|
            0 <= a < b < canonical(ts).len() ==> key_of(#[trigger] canonical(ts)[a].0) != key_of(
                #[trigger] canonical(ts)[b].0,
            ),
    decreases ts.len(),
{
    if ts.len() > 0 {
        let rest = ts.drop_first();
        lemma_canonical(rest);
        let c = canonical(ts);
        let cr = canonical(rest);
        assert forall|a: int| 0 <= a < cr.len() implies exists|j: int|
            0 <= j < ts.len() && #[trigger] cr[a] == ts[j] by {
            let j = choose|j: int| 0 <= j < rest.len() && cr[a] == rest[j];
            assert(cr[a] == ts[j + 1]);
        }
        if !key_occurs(rest, key_of(ts[0].0)) {
            assert forall|a: int| 0 <= a < c.len() implies exists|j: int|
                0 <= j < ts.len() && #[trigger] c[a] == ts[j] by {
                if a == 0 {
                    assert(c[0] == ts[0]);
                } else {
                    assert(c[a] == cr[a - 1]);
                }
            }
            assert forall|a: int, b: int| 0 <= a < b < c.len() implies key_of(
                #[trigger] c[a].0,
            ) != key_of(#[trigger] c[b].0) by {
                if a == 0 {
                    assert(c[b] == cr[b - 1]);
                    let j = choose|j: int| 0 <= j < rest.len() && cr[b - 1] == rest[j];
                    assert(key_of(rest[j].0) == key_of(c[b].0));
                } else {
                    assert(c[a] == cr[a - 1]);
                    assert(c[b] == cr[b - 1]);
                }
            }
        }
    }
}

/// When the entry at `kk` is the first with key `k`, it is the entry of `k`.
pub proof fn lemma_entry_of_first(es: Seq<(Seq<char>, Seq<char>)>, k: Seq<char>, kk: int)
    requires
        0 <= kk < es.len(),
        key_of(es[kk].0) == k,
        forall|j: int| 0 <= j < kk ==> key_of(#[trigger] es[j].0) != k,
    ensures
        entry_of(es, k) == Some(es[kk]),
    decreases kk,
{
    if kk > 0 {
        let d = es.drop_first();
        assert forall|j: int| 0 <= j < kk - 1 implies key_of(#[trigger] d[j].0) != k by {
            assert(d[j] == es[j + 1]);
        }
        lemma_entry_of_first(d, k, kk - 1);
    }
}

/// When no entry has key `k`, `k` has no entry.
pub proof fn lemma_entry_of_none(es: Seq<(Seq<char>, Seq<char>)>, k: Seq<char>)
    requires
        forall|j: int| 0 <= j < es.len() ==> key_of(#[trigger] es[j].0) != k,
    ensures
        entry_of(es, k) is None,
    decreases es.len(),
{
    if es.len() > 0 {
        let d = es.drop_first();
        assert forall|j: int| 0 <= j < d.len() implies key_of(#[trigger] d[j].0) != k by {
            assert(d[j] == es[j + 1]);
        }
        lemma_entry_of_none(d, k);
    }
}

/// The keys of the managed blocks among the first `i + 1` blocks.
pub proof fn lemma_managed_keys_step(bs: Seq<BlockView>, i: int)
    requires
        0 <= i < bs.len(),
    ensures
        managed_keys(bs.take(i + 1)) == (match block_key(bs[i]) {
            Some(k) => managed_keys(bs.take(i)).insert(k),
            None => managed_keys(bs.take(i)),
        }),
{
    let a = bs.take(i);
    let b = bs.take(i + 1);
    let target = match block_key(bs[i]) {
        Some(k) => managed_keys(a).insert(k),
        None => managed_keys(a),
    };
    assert forall|k: Seq<char>| managed_keys(b).contains(k) <==> target.contains(k) by {
        if managed_keys(b).contains(k) {
            let j = choose|j: int| 0 <= j < b.len() && block_key(b[j]) == Some(k);
            if j < i {
                assert(a[j] == b[j]);
                assert(managed_keys(a).contains(k));
            }
        }
        if managed_keys(a).contains(k) {
            let j = choose|j: int| 0 <= j < a.len() && block_key(a[j]) == Some(k);
            assert(b[j] == a[j]);
        }
        if block_key(bs[i]) == Some(k) {
            assert(b[i] == bs[i]);
        }
    }
    assert(managed_keys(b) =~= target);
}

/// The view of each block in a sequence.
pub open spec fn block_views(v: Seq<Block>) -> Seq<BlockView> {
    v.map_values(|b: Block| b@)
}

/// Moves the buffered custom text into a block, if there is any.
fn flush_buffer(blocks: &mut Vec<Block>, buf: &Vec<char>)
    ensures
        block_views(final(blocks)@) == block_views(old(blocks)@) + flush(buf@),
{
    if buf.len() > 0 {
        let ghost before = block_views(blocks@);
        blocks.push(Block::Custom(chars_to_string(buf)));
        assert(block_views(blocks@) =~= before + flush(buf@));
    } else {
        assert(block_views(blocks@) =~= block_views(blocks@) + flush(buf@));
    }
}

impl Patcher {
    /// Parses an existing `.gitignore` string into a sequence of [Block]s.
    ///
    /// It recognizes the start and end markers defined in [crate::defs].
    pub fn parse(content: &str) -> (r: Self)
        ensures
            r@ == parse_spec(content@),
    {
        let chars = str_to_chars(content);
        let lines = split_into_lines(&chars);
        let ghost ls = char_views(lines@);
        let start = str_to_chars(START_MARKER_PREFIX);
        let end = str_to_chars(END_MARKER_PREFIX);
        let n = lines.len();
        let mut blocks: Vec<Block> = Vec::new();
        let mut buf: Vec<char> = Vec::new();
        let mut i: usize = 0;
        assert(block_views(blocks@) =~= Seq::<BlockView>::empty());
        while i < n
            invariant
                n == lines.len(),
                ls == char_views(lines@),
                ls == lines_spec(content@),
                start@ == START_MARKER_PREFIX@,
                end@ == END_MARKER_PREFIX@,
                i <= n,
                block_views(blocks@) + parse_from(ls, i as int, buf@) == parse_from(ls, 0, seq![]),
            decreases n - i,
        {
            let line = &lines[i];
            assert(line@ == ls[i as int]);
            if starts_with(line, &start) {
                let ghost before = block_views(blocks@);
                let ghost old_buf = buf@;
                flush_buffer(&mut blocks, &buf);
                buf = Vec::new();
                let name = copy_range(line, start.len(), line.len());
                assert(name@ =~= ls[i as int].skip(START_MARKER_PREFIX@.len() as int));
                let mut em = copy_range(&end, 0, end.len());
                append_chars(&mut em, &name);
                assert(em@ =~= end_line(name@));
                let mut content_chars: Vec<char> = Vec::new();
                let mut j: usize = i + 1;
                proof {
                    lemma_find_line_bounds(ls, i + 1, em@);
                    assert(ls.subrange(i + 1, i + 1) =~= Seq::<Seq<char>>::empty());
                }
                while j < n && !chars_eq(&lines[j], &em)
                    invariant
                        n == lines.len(),
                        ls == char_views(lines@),
                        i + 1 <= j <= n,
                        find_line(ls, i + 1, em@) == find_line(ls, j as int, em@),
                        content_chars@ == join_lines(ls.subrange(i + 1, j as int)),
                    decreases n - j,
                {
                    let mut l = copy_range(&lines[j], 0, lines[j].len());
                    assert(l@ =~= ls[j as int]);
                    l.push('\n');
                    append_chars(&mut content_chars, &l);
                    assert(ls.subrange(i + 1, j + 1).drop_last() =~= ls.subrange(i + 1, j as int));
                    j = j + 1;
                }
                proof {
                    if j < n {
                        assert(lines@[j as int]@ == ls[j as int]);
                    }
                    assert(find_line(ls, j as int, em@) == j);
                }
                let ghost blk = BlockView::Managed { name: name@, content: content_chars@ };
                blocks.push(
                    Block::Managed {
                        name: chars_to_string(&name),
                        content: chars_to_string(&content_chars),
                    },
                );
                assert(block_views(blocks@) =~= before + flush(old_buf) + seq![blk]);
                if j < n {
                    i = j + 1;
                } else {
                    assert(parse_from(ls, n as int, seq![]) == parse_from(ls, n + 1, seq![]));
                    i = n;
                }
            } else {
                let ghost old_buf = buf@;
                append_chars(&mut buf, line);
                buf.push('\n');
                assert(buf@ =~= old_buf + ls[i as int].push('\n'));
                i = i + 1;
            }
        }
        flush_buffer(&mut blocks, &buf);
        let r = Patcher { blocks };
        assert(r@ =~= block_views(r.blocks@));
        r
    }

    /// Serializes the blocks back into a single string.
    ///
    /// Every block that renders to some text contributes it, and consecutive
    /// contributions are separated by one newline, so that exactly one blank
    /// line stands between blocks.
    pub fn serialize(&self) -> (r: String)
        ensures
            r@ == serialize_spec(self@),
    {
        let ghost bs = self@;
        let mut out: Vec<char> = Vec::new();
        let mut any = false;
        let mut seen = false;
        let mut i: usize = 0;
        assert(bs.take(0) =~= Seq::<BlockView>::empty());
        while i < self.blocks.len()
            invariant
                bs == self@,
                bs == block_views(self.blocks@),
                i <= self.blocks.len(),
                out@ == join_newline(rendered(bs.take(i as int))),
                any == (rendered(bs.take(i as int)).len() > 0),
                seen == has_managed(bs.take(i as int)),
            decreases self.blocks.len() - i,
        {
            assert(bs.take(i + 1).drop_last() =~= bs.take(i as int));
            assert(bs[i as int] == self.blocks@[i as int]@);
            assert(bs.take(i + 1).last() == bs[i as int]);
            let ghost prev = rendered(bs.take(i as int));
            match self.blocks[i].render(seen) {
                Some(t) => {
                    let tc = string_chars(&t);
                    assert(rendered(bs.take(i + 1)) =~= prev.push(tc@));
                    if any {
                        out.push('\n');
                    }
                    append_chars(&mut out, &tc);
                    assert(prev.push(tc@).drop_last() =~= prev);
                    if !any {
                        assert(out@ =~= tc@);
                    }
                    any = true;
                },
                None => {
                    assert(rendered(bs.take(i + 1)) =~= prev);
                },
            }
            let is_section = match &self.blocks[i] {
                Block::Managed { .. } => true,
                Block::Custom(_) => false,
            };
            proof {
                let nt = bs.take(i + 1);
                if is_section {
                    assert(nt[i as int] is Managed);
                } else if has_managed(nt) {
                    let k = choose|k: int| 0 <= k < nt.len() && (#[trigger] nt[k]) is Managed;
                    assert(k < i);
                    assert(bs.take(i as int)[k] == nt[k]);
                } else if seen {
                    let k = choose|k: int| 0 <= k < i && (#[trigger] bs.take(i as int)[k]) is Managed;
                    assert(nt[k] == bs.take(i as int)[k]);
                }
            }
            seen = seen || is_section;
            i = i + 1;
        }
        assert(bs.take(self.blocks.len() as int) =~= bs);
        chars_to_string(&out)
    }
}

/// A managed block for the template `name` with its content trimmed.
fn template_block(name: &String, content: &String) -> (r: Block)
    ensures
        r@ == managed_template((name@, content@)),
{
    let c = string_chars(content);
    let t = trim_chars(&c);
    Block::Managed { name: name.clone(), content: chars_to_string(&t) }
}

/// A copy of a block.
fn copy_block(b: &Block) -> (r: Block)
    ensures
        r@ == b@,
{
    match b {
        Block::Custom(c) => Block::Custom(c.clone()),
        Block::Managed { name, content } => Block::Managed { name: name.clone(), content: content.clone() },
    }
}

impl Patcher {
    /// Merges new template content into the parsed blocks.
    ///
    /// `new_templates` lists (name, content) pairs. If a [Block::Managed]
    /// section with a matching name (case-insensitive) exists, the first such
    /// section takes the template's name and its trimmed content. Otherwise,
    /// a new managed block is appended to the end.
    pub fn patch(&mut self, new_templates: Vec<(String, String)>)
        ensures
            final(self)@ == patch_spec(old(self)@, templates_view(new_templates@)),
    {
        let ghost ts = templates_view(new_templates@);
        let n = new_templates.len();
        // The key of every template.
        let mut keys: Vec<String> = Vec::new();
        let mut i: usize = 0;
        while i < n
            invariant
                n == new_templates.len(),
                ts == templates_view(new_templates@),
                i <= n,
                keys.len() == i,
                forall|j: int| 0 <= j < i ==> (#[trigger] keys@[j])@ == key_of(ts[j].0),
            decreases n - i,
        {
            keys.push(lowercase(new_templates[i].0.as_str()));
            i = i + 1;
        }
        // One entry per key, the last template of each key.
        let mut entries: Vec<(String, String)> = Vec::new();
        let mut ekeys: Vec<String> = Vec::new();
        i = 0;
        assert(ts.skip(0) =~= ts);
        assert(templates_view(entries@) =~= Seq::<(Seq<char>, Seq<char>)>::empty());
        while i < n
            invariant
                n == new_templates.len(),
                ts == templates_view(new_templates@),
                i <= n,
                keys.len() == n,
                forall|j: int| 0 <= j < n ==> (#[trigger] keys@[j])@ == key_of(ts[j].0),
                ekeys.len() == entries.len(),
                forall|j: int|
                    0 <= j < entries.len() ==> (#[trigger] ekeys@[j])@ == key_of(
                        templates_view(entries@)[j].0,
                    ),
                templates_view(entries@) + canonical(ts.skip(i as int)) == canonical(ts),
            decreases n - i,
        {
            let ghost rest = ts.skip(i as int);
            assert(rest.drop_first() =~= ts.skip(i + 1));
            assert(rest[0] == ts[i as int]);
            let mut later = false;
            let mut j: usize = i + 1;
            while j < n
                invariant
                    n == new_templates.len(),
                    i < j <= n,
                    keys.len() == n,
                    forall|j: int| 0 <= j < n ==> (#[trigger] keys@[j])@ == key_of(ts[j].0),
                    later == exists|m: int| i < m < j && key_of(#[trigger] ts[m].0) == key_of(ts[i as int].0),
                decreases n - j,
            {
                if keys[j] == keys[i] {
                    later = true;
                }
                j = j + 1;
            }
            proof {
                if later {
                    let m = choose|m: int| i < m < n && key_of(#[trigger] ts[m].0) == key_of(ts[i as int].0);
                    assert(rest.drop_first()[m - i - 1] == ts[m]);
                } else {
                    assert forall|m: int| 0 <= m < rest.drop_first().len() implies key_of(
                        #[trigger] rest.drop_first()[m].0,
                    ) != key_of(ts[i as int].0) by {
                        assert(rest.drop_first()[m] == ts[m + i + 1]);
                    }
                }
            }
            if !later {
                let ghost before = templates_view(entries@);
                entries.push((new_templates[i].0.clone(), new_templates[i].1.clone()));
                ekeys.push(keys[i].clone());
                assert(templates_view(entries@) =~= before.push(ts[i as int]));
                assert(before.push(ts[i as int]) + canonical(ts.skip(i + 1)) =~= before + (seq![
                    rest[0],
                ] + canonical(rest.drop_first())));
            }
            i = i + 1;
        }
        assert(ts.skip(n as int) =~= Seq::<(Seq<char>, Seq<char>)>::empty());
        let ghost es = canonical(ts);
        assert(templates_view(entries@) =~= es);
        proof {
            lemma_canonical(ts);
        }
        let m = entries.len();
        // Update the existing managed blocks in place.
        let ghost bs = self@;
        let mut used: Vec<bool> = Vec::new();
        let mut k: usize = 0;
        while k < m
            invariant
                k <= m,
                used.len() == k,
                forall|j: int| 0 <= j < k ==> !(#[trigger] used@[j]),
            decreases m - k,
        {
            used.push(false);
            k = k + 1;
        }
        let mut out: Vec<Block> = Vec::new();
        let ghost mut done: Set<Seq<char>> = Set::empty();
        i = 0;
        assert(bs.skip(0) =~= bs);
        assert(bs.take(0) =~= Seq::<BlockView>::empty());
        assert(managed_keys(bs.take(0)) =~= Set::<Seq<char>>::empty());
        assert(block_views(out@) =~= Seq::<BlockView>::empty());
        while i < self.blocks.len()
            invariant
                bs == self@,
                bs == block_views(self.blocks@),
                es == templates_view(entries@),
                m == entries.len(),
                ekeys.len() == m,
                used.len() == m,
                forall|j: int| 0 <= j < m ==> (#[trigger] ekeys@[j])@ == key_of(es[j].0),
                forall|a: int, b: int|
                    0 <= a < b < es.len() ==> key_of(#[trigger] es[a].0) != key_of(
                        #[trigger] es[b].0,
                    ),
                i <= self.blocks.len(),
                done == managed_keys(bs.take(i as int)),
                forall|j: int| 0 <= j < m ==> (#[trigger] used@[j]) == done.contains(key_of(es[j].0)),
                block_views(out@) + patch_blocks(bs.skip(i as int), es, done) == patch_blocks(
                    bs,
                    es,
                    Set::empty(),
                ),
            decreases self.blocks.len() - i,
        {
            let ghost rest = bs.skip(i as int);
            assert(rest.drop_first() =~= bs.skip(i + 1));
            assert(rest[0] == bs[i as int]);
            assert(bs[i as int] == self.blocks@[i as int]@);
            proof {
                lemma_managed_keys_step(bs, i as int);
            }
            let ghost before = block_views(out@);
            match &self.blocks[i] {
                Block::Custom(c) => {
                    out.push(Block::Custom(c.clone()));
                    assert(block_views(out@) =~= before.push(rest[0]));
                },
                Block::Managed { name, content } => {
                    let key = lowercase(name.as_str());
                    let mut found: usize = m;
                    let mut kk: usize = 0;
                    while kk < m
                        invariant
                            m == ekeys.len(),
                            kk <= m,
                            found <= m,
                            found < m ==> found < kk && (#[trigger] ekeys@[found as int])@ == key@,
                            found < m ==> forall|j: int| 0 <= j < found ==> (#[trigger] ekeys@[j])@ != key@,
                            found == m ==> forall|j: int| 0 <= j < kk ==> (#[trigger] ekeys@[j])@ != key@,
                        decreases m - kk,
                    {
                        if found == m && ekeys[kk] == key {
                            found = kk;
                        }
                        kk = kk + 1;
                    }
                    proof {
                        if found < m {
                            assert forall|j: int| 0 <= j < found implies key_of(#[trigger] es[j].0) != key@ by {
                                assert(ekeys@[j]@ != key@);
                            }
                            lemma_entry_of_first(es, key@, found as int);
                        } else {
                            assert forall|j: int| 0 <= j < es.len() implies key_of(#[trigger] es[j].0) != key@ by {
                                assert(ekeys@[j]@ != key@);
                            }
                            lemma_entry_of_none(es, key@);
                        }
                    }
                    if found < m && !used[found] {
                        out.push(template_block(&entries[found].0, &entries[found].1));
                        used.set(found, true);
                    } else {
                        out.push(copy_block(&self.blocks[i]));
                    }
                    proof {
                        let head = if !done.contains(key@) && entry_of(es, key@) is Some {
                            managed_template(entry_of(es, key@)->0)
                        } else {
                            rest[0]
                        };
                        assert(block_views(out@) =~= before.push(head));
                        done = done.insert(key@);
                        assert forall|j: int| 0 <= j < m implies (#[trigger] used@[j])
                            == done.contains(key_of(es[j].0)) by {
                            if j != found && key_of(es[j].0) == key@ {
                                if found < m {
                                    if j < found {
                                        assert(key_of(es[j].0) != key_of(es[found as int].0));
                                    } else {
                                        assert(key_of(es[found as int].0) != key_of(es[j].0));
                                    }
                                } else {
                                    assert(ekeys@[j]@ != key@);
                                }
                            }
                        }
                    }
                },
            }
            i = i + 1;
        }
        assert(bs.skip(i as int) =~= Seq::<BlockView>::empty());
        assert(bs.take(i as int) =~= bs);
        // Append a managed block for every template without one.
        k = 0;
        let ghost base = block_views(out@);
        assert(es.take(0) =~= Seq::<(Seq<char>, Seq<char>)>::empty());
        assert(base =~= base + unmatched(es.take(0), done));
        while k < m
            invariant
                es == templates_view(entries@),
                m == entries.len(),
                used.len() == m,
                forall|j: int| 0 <= j < m ==> (#[trigger] used@[j]) == done.contains(key_of(es[j].0)),
                k <= m,
                block_views(out@) == base + unmatched(es.take(k as int), done),
            decreases m - k,
        {
            assert(es.take(k + 1).drop_last() =~= es.take(k as int));
            assert(es.take(k + 1).last() == es[k as int]);
            if !used[k] {
                let ghost before = block_views(out@);
                out.push(template_block(&entries[k].0, &entries[k].1));
                assert(block_views(out@) =~= before.push(managed_template(es[k as int])));
            }
            k = k + 1;
        }
        assert(es.take(m as int) =~= es);
        self.blocks = out;
        assert(self@ =~= block_views(self.blocks@));
    }
}

} // verus!
