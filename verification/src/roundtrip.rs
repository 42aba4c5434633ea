//! What reading back a serialized file gives: the blocks as they render.
//! From it follows that running the tool a second time with the same
//! templates leaves its output as it is.

use vstd::prelude::*;

use crate::patch::{
    find_line, flush, join_lines, lemma_find_line_bounds, parse_from, parse_spec, end_line,
    join_newline, start_line,
    block_key, canonical, entry_of, has_managed, key_of, managed_keys, managed_template,
    patch_blocks, patch_spec, piece, render_spec, rendered, rendered_from, serialize_spec,
    unmatched, BlockView,
};
use crate::patch_laws::{
    law_patch_idempotent, lemma_entry_of_found, lemma_patch_blocks_elem, lemma_patch_blocks_keys,
    lemma_trim_end_idempotent, lemma_trim_end_shape, lemma_trim_idempotent, lemma_trim_start_shape,
    lemma_unmatched,
};
use crate::defs::START_MARKER_PREFIX;
use crate::patch_laws::{
    body_of, lemma_trim_shape, lemma_join_lines_concat, lemma_join_lines_front, lemma_join_newline_front,
    lemma_join_split_lines, lemma_lines_blank_between, lemma_lines_managed, lemma_marker_facts,
    lemma_parse_custom_line, lemma_parse_custom_lines, lemma_parse_managed, lemma_trim_body, name_clean,
};
use crate::text::{
    after_last_newline, has_crlf, has_prefix, is_white_space, lemma_strip_blank_lines,
    lemma_strip_newline_front, trim_start_spec, ws_run_from, lemma_split_lines_line, lemma_strip_idempotent, lines_spec,
    split_lines, strip_blank_lines, strip_cr, trim_end_spec, trim_spec,
};

verus! {

/// A sequence has a managed block when one of its parts has one.
pub proof fn lemma_has_managed_concat(a: Seq<BlockView>, b: Seq<BlockView>)
    ensures
        has_managed(a + b) == (has_managed(a) || has_managed(b)),
{
    let ab = a + b;
    if has_managed(ab) {
        let i = choose|i: int| 0 <= i < ab.len() && (#[trigger] ab[i]) is Managed;
        if i < a.len() {
            assert(a[i] == ab[i]);
        } else {
            assert(b[i - a.len()] == ab[i]);
        }
    }
    if has_managed(a) {
        let i = choose|i: int| 0 <= i < a.len() && (#[trigger] a[i]) is Managed;
        assert(ab[i] == a[i]);
    }
    if has_managed(b) {
        let i = choose|i: int| 0 <= i < b.len() && (#[trigger] b[i]) is Managed;
        assert(ab[a.len() + i] == b[i]);
    }
}

/// A single block has a managed block when it is one.
pub proof fn lemma_has_managed_single(x: BlockView)
    ensures
        has_managed(seq![x]) == x is Managed,
        !has_managed(Seq::<BlockView>::empty()),
{
    if x is Managed {
        assert(seq![x][0] == x);
    }
}

/// Rendering a concatenation renders the first part, then the second after
/// the sections of the first.
pub proof fn lemma_rendered_concat(a: Seq<BlockView>, b: Seq<BlockView>, f: bool)
    ensures
        rendered_from(a + b, f) == rendered_from(a, f) + rendered_from(b, f || has_managed(a)),
    decreases b.len(),
{
    if b.len() == 0 {
        assert(a + b =~= a);
        assert(rendered_from(a, f) + Seq::<Seq<char>>::empty() =~= rendered_from(a, f));
    } else {
        let d = b.drop_last();
        lemma_rendered_concat(a, d, f);
        assert((a + b).drop_last() =~= a + d);
        assert((a + b).last() == b.last());
        lemma_has_managed_concat(a, d);
        let g = f || has_managed(a);
        let p = piece(render_spec(b.last(), g || has_managed(d)));
        assert(rendered_from(a, f) + rendered_from(d, g) + p =~= rendered_from(a, f) + (
        rendered_from(d, g) + p));
    }
}

/// Rendering a block followed by others.
pub proof fn lemma_rendered_front(x: BlockView, d: Seq<BlockView>, f: bool)
    ensures
        rendered_from(seq![x] + d, f) == piece(render_spec(x, f)) + rendered_from(d, f || x is Managed),
{
    lemma_rendered_concat(seq![x], d, f);
    lemma_has_managed_single(x);
    assert(seq![x].drop_last() =~= Seq::<BlockView>::empty());
    assert(seq![x].last() == x);
    assert(rendered_from(Seq::<BlockView>::empty(), f) =~= Seq::<Seq<char>>::empty());
    assert(Seq::<Seq<char>>::empty() + piece(render_spec(x, f)) =~= piece(render_spec(x, f)));
    assert(rendered_from(seq![x], f) =~= piece(render_spec(x, f)));
}

/// A block as it renders, where `after` says whether a managed section
/// comes before it: custom text trimmed at the end, and stripped of its
/// leading blank lines after a section, or nothing when that leaves
/// nothing; a managed block with its content trimmed.
pub open spec fn norm_block(b: BlockView, after: bool) -> Seq<BlockView> {
    match b {
        BlockView::Custom(c) => {
            let t = trim_end_spec(c);
            let u = if after {
                strip_blank_lines(t)
            } else {
                t
            };
            if u.len() == 0 {
                seq![]
            } else {
                seq![BlockView::Custom(u)]
            }
        },
        BlockView::Managed { name, content } => seq![
            BlockView::Managed { name: name, content: trim_spec(content) },
        ],
    }
}

/// Every block as it renders, where `after` says whether a managed section
/// comes before them all.
pub open spec fn norm_from(bs: Seq<BlockView>, after: bool) -> Seq<BlockView>
    decreases bs.len(),
{
    if bs.len() == 0 {
        seq![]
    } else {
        norm_from(bs.drop_last(), after) + norm_block(bs.last(), after || has_managed(bs.drop_last()))
    }
}

/// Every block as it renders.
pub open spec fn norm(bs: Seq<BlockView>) -> Seq<BlockView> {
    norm_from(bs, false)
}

/// Normalizing a concatenation normalizes the first part, then the second
/// after the sections of the first.
pub proof fn lemma_norm_concat(a: Seq<BlockView>, b: Seq<BlockView>, f: bool)
    ensures
        norm_from(a + b, f) == norm_from(a, f) + norm_from(b, f || has_managed(a)),
    decreases b.len(),
{
    if b.len() == 0 {
        assert(a + b =~= a);
        assert(norm_from(a, f) + Seq::<BlockView>::empty() =~= norm_from(a, f));
    } else {
        let d = b.drop_last();
        lemma_norm_concat(a, d, f);
        assert((a + b).drop_last() =~= a + d);
        assert((a + b).last() == b.last());
        lemma_has_managed_concat(a, d);
        let g = f || has_managed(a);
        let p = norm_block(b.last(), g || has_managed(d));
        assert(norm_from(a, f) + norm_from(d, g) + p =~= norm_from(a, f) + (norm_from(d, g) + p));
    }
}

/// Normalizing a block followed by others.
pub proof fn lemma_norm_front(x: BlockView, d: Seq<BlockView>, f: bool)
    ensures
        norm_from(seq![x] + d, f) == norm_block(x, f) + norm_from(d, f || x is Managed),
{
    lemma_norm_concat(seq![x], d, f);
    lemma_has_managed_single(x);
    assert(seq![x].drop_last() =~= Seq::<BlockView>::empty());
    assert(seq![x].last() == x);
    assert(norm_from(Seq::<BlockView>::empty(), f) =~= Seq::<BlockView>::empty());
    assert(Seq::<BlockView>::empty() + norm_block(x, f) =~= norm_block(x, f));
    assert(norm_from(seq![x], f) =~= norm_block(x, f));
}

/// Normalizing keeps the managed blocks.
pub proof fn lemma_norm_has_managed(bs: Seq<BlockView>, f: bool)
    ensures
        has_managed(norm_from(bs, f)) == has_managed(bs),
    decreases bs.len(),
{
    if bs.len() > 0 {
        let d = bs.drop_last();
        lemma_norm_has_managed(d, f);
        let nb = norm_block(bs.last(), f || has_managed(d));
        lemma_has_managed_concat(norm_from(d, f), nb);
        assert(d + seq![bs.last()] =~= bs);
        lemma_has_managed_concat(d, seq![bs.last()]);
        lemma_has_managed_single(bs.last());
        match bs.last() {
            BlockView::Managed { name, content } => {
                lemma_has_managed_single(nb[0]);
                assert(nb =~= seq![nb[0]]);
            },
            BlockView::Custom(_) => {
                if nb.len() > 0 {
                    lemma_has_managed_single(nb[0]);
                    assert(nb =~= seq![nb[0]]);
                }
            },
        }
    }
}

/// Custom text as it renders is its own rendering.
pub proof fn lemma_custom_normal(c: Seq<char>, f: bool)
    ensures
        ({
            let t = trim_end_spec(c);
            let u = if f {
                strip_blank_lines(t)
            } else {
                t
            };
            &&& u.len() > 0 <==> t.len() > 0
            &&& u.len() > 0 ==> trim_end_spec(u) == u && !is_white_space(u.last())
            &&& f ==> strip_blank_lines(u) == u
            &&& u.len() <= c.len()
        }),
{
    let t = trim_end_spec(c);
    lemma_trim_end_shape(c);
    lemma_trim_end_idempotent(c);
    lemma_strip_idempotent(t);
    let u = if f {
        strip_blank_lines(t)
    } else {
        t
    };
    if f && t.len() == 0 {
        assert(strip_blank_lines(t).len() <= t.len());
    }
    if u.len() > 0 {
        if f {
            assert(t.len() > 0);
        }
        assert(!is_white_space(u.last()));
    }
}

/// A block rendered as it renders gives the same text.
pub proof fn lemma_render_norm_block(b: BlockView, f: bool)
    ensures
        rendered_from(norm_block(b, f), f) == piece(render_spec(b, f)),
        norm_block(b, f).len() <= 1,
        norm_block(b, f).len() == 1 ==> norm_block(norm_block(b, f)[0], f) == norm_block(b, f),
{
    let nb = norm_block(b, f);
    match b {
        BlockView::Custom(c) => {
            lemma_custom_normal(c, f);
            if nb.len() == 0 {
                assert(rendered_from(nb, f) =~= Seq::<Seq<char>>::empty());
            } else {
                assert(nb =~= seq![nb[0]]);
                lemma_rendered_front(nb[0], Seq::<BlockView>::empty(), f);
                assert(seq![nb[0]] + Seq::<BlockView>::empty() =~= nb);
                assert(rendered_from(Seq::<BlockView>::empty(), f) =~= Seq::<Seq<char>>::empty());
            }
        },
        BlockView::Managed { name, content } => {
            lemma_trim_idempotent(content);
            lemma_rendered_front(nb[0], Seq::<BlockView>::empty(), f);
            assert(seq![nb[0]] + Seq::<BlockView>::empty() =~= nb);
            assert(rendered_from(Seq::<BlockView>::empty(), true) =~= Seq::<Seq<char>>::empty());
        },
    }
}

/// Blocks and their rendered forms render the same.
pub proof fn lemma_rendered_norm(bs: Seq<BlockView>, f: bool)
    ensures
        rendered_from(norm_from(bs, f), f) == rendered_from(bs, f),
    decreases bs.len(),
{
    if bs.len() > 0 {
        let d = bs.drop_last();
        lemma_rendered_norm(d, f);
        let g = f || has_managed(d);
        let nb = norm_block(bs.last(), g);
        lemma_rendered_concat(norm_from(d, f), nb, f);
        lemma_norm_has_managed(d, f);
        lemma_render_norm_block(bs.last(), g);
    }
}

/// Blocks and their rendered forms serialize the same.
pub proof fn lemma_serialize_norm(bs: Seq<BlockView>)
    ensures
        serialize_spec(norm(bs)) == serialize_spec(bs),
{
    lemma_rendered_norm(bs, false);
}

/// The keys of the managed blocks of a concatenation.
pub proof fn lemma_keys_concat(a: Seq<BlockView>, b: Seq<BlockView>)
    ensures
        managed_keys(a + b) == managed_keys(a).union(managed_keys(b)),
{
    let ab = a + b;
    assert forall|k: Seq<char>| managed_keys(ab).contains(k) <==> managed_keys(a).union(
        managed_keys(b),
    ).contains(k) by {
        if managed_keys(ab).contains(k) {
            let i = choose|i: int| 0 <= i < ab.len() && block_key(ab[i]) == Some(k);
            if i < a.len() {
                assert(a[i] == ab[i]);
            } else {
                assert(b[i - a.len()] == ab[i]);
            }
        }
        if managed_keys(a).contains(k) {
            let i = choose|i: int| 0 <= i < a.len() && block_key(a[i]) == Some(k);
            assert(ab[i] == a[i]);
        }
        if managed_keys(b).contains(k) {
            let i = choose|i: int| 0 <= i < b.len() && block_key(b[i]) == Some(k);
            assert(ab[a.len() + i] == b[i]);
        }
    }
    assert(managed_keys(ab) =~= managed_keys(a).union(managed_keys(b)));
}

/// Normalizing keeps the keys of the managed blocks.
pub proof fn lemma_norm_keys(bs: Seq<BlockView>, f: bool)
    ensures
        managed_keys(norm_from(bs, f)) == managed_keys(bs),
    decreases bs.len(),
{
    if bs.len() > 0 {
        let d = bs.drop_last();
        let x = bs.last();
        lemma_norm_keys(d, f);
        let nb = norm_block(x, f || has_managed(d));
        lemma_keys_concat(norm_from(d, f), nb);
        assert(d + seq![x] =~= bs);
        lemma_keys_concat(d, seq![x]);
        assert(managed_keys(nb) =~= managed_keys(seq![x])) by {
            assert forall|k: Seq<char>| managed_keys(nb).contains(k) <==> managed_keys(seq![x]).contains(k) by {
                if managed_keys(nb).contains(k) {
                    let i = choose|i: int| 0 <= i < nb.len() && block_key(nb[i]) == Some(k);
                    assert(seq![x][0] == x);
                }
                if managed_keys(seq![x]).contains(k) {
                    let i = choose|i: int| 0 <= i < 1 && block_key(seq![x][i]) == Some(k);
                    assert(block_key(nb[0]) == Some(k));
                }
            }
        }
    }
}

/// Managed blocks normalize alike after anything.
pub proof fn lemma_norm_managed_any(u: Seq<BlockView>, f: bool, g: bool)
    requires
        forall|i: int| 0 <= i < u.len() ==> (#[trigger] u[i]) is Managed,
    ensures
        norm_from(u, f) == norm_from(u, g),
    decreases u.len(),
{
    if u.len() > 0 {
        let d = u.drop_last();
        assert forall|i: int| 0 <= i < d.len() implies (#[trigger] d[i]) is Managed by {
            assert(d[i] == u[i]);
        }
        lemma_norm_managed_any(d, f, g);
        assert(u.last() is Managed);
    }
}

/// Patching blocks or their rendered forms renders the same.
pub proof fn lemma_norm_patch_blocks(
    bs: Seq<BlockView>,
    es: Seq<(Seq<char>, Seq<char>)>,
    done: Set<Seq<char>>,
    f: bool,
)
    ensures
        norm_from(patch_blocks(bs, es, done), f) == norm_from(
            patch_blocks(norm_from(bs, f), es, done),
            f,
        ),
    decreases bs.len(),
{
    if bs.len() > 0 {
        let b = bs[0];
        let d = bs.drop_first();
        assert(seq![b] + d =~= bs);
        lemma_norm_front(b, d, f);
        let f2 = f || b is Managed;
        let x = norm_from(d, f2);
        let nb = norm_block(b, f);
        let pb = patch_blocks(bs, es, done);
        match b {
            BlockView::Custom(c) => {
                lemma_norm_patch_blocks(d, es, done, f2);
                let pd = patch_blocks(d, es, done);
                assert(pb == seq![b] + pd);
                lemma_norm_front(b, pd, f);
                if nb.len() == 0 {
                    assert(norm_from(bs, f) =~= x);
                } else {
                    lemma_render_norm_block(b, f);
                    let y = nb[0];
                    assert(norm_from(bs, f) =~= seq![y] + x);
                    let py = patch_blocks(seq![y] + x, es, done);
                    assert((seq![y] + x)[0] == y);
                    assert((seq![y] + x).drop_first() =~= x);
                    assert(py == seq![y] + patch_blocks(x, es, done));
                    lemma_norm_front(y, patch_blocks(x, es, done), f);
                    assert(nb =~= seq![y]);
                }
            },
            BlockView::Managed { name, content } => {
                let k = key_of(name);
                let done2 = done.insert(k);
                lemma_norm_patch_blocks(d, es, done2, true);
                let pd = patch_blocks(d, es, done2);
                let h = pb[0];
                assert(pb == seq![h] + pd);
                lemma_norm_front(h, pd, f);
                let y = nb[0];
                assert(norm_from(bs, f) =~= seq![y] + x);
                let py = patch_blocks(seq![y] + x, es, done);
                assert((seq![y] + x)[0] == y);
                assert((seq![y] + x).drop_first() =~= x);
                let h2 = py[0];
                assert(py == seq![h2] + patch_blocks(x, es, done2));
                lemma_norm_front(h2, patch_blocks(x, es, done2), f);
                lemma_trim_idempotent(content);
                if !(!done.contains(k) && entry_of(es, k) is Some) {
                    assert(h == b);
                    assert(h2 == y);
                }
            },
        }
    }
}

/// Patching blocks or their rendered forms renders the same.
pub proof fn lemma_norm_patch(bs: Seq<BlockView>, ts: Seq<(Seq<char>, Seq<char>)>)
    ensures
        norm(patch_spec(bs, ts)) == norm(patch_spec(norm(bs), ts)),
{
    let es = canonical(ts);
    let pb = patch_blocks(bs, es, Set::empty());
    let pb2 = patch_blocks(norm(bs), es, Set::empty());
    lemma_norm_keys(bs, false);
    let u = unmatched(es, managed_keys(bs));
    lemma_unmatched(es, managed_keys(bs));
    assert forall|i: int| 0 <= i < u.len() implies (#[trigger] u[i]) is Managed by {
        let j = choose|j: int| 0 <= j < es.len() && !managed_keys(bs).contains(key_of(es[j].0)) && #[trigger] unmatched(es, managed_keys(bs))[i] == managed_template(es[j]);
    }
    lemma_norm_concat(pb, u, false);
    lemma_norm_concat(pb2, u, false);
    lemma_norm_managed_any(u, has_managed(pb), false);
    lemma_norm_managed_any(u, has_managed(pb2), false);
    lemma_norm_patch_blocks(bs, es, Set::empty(), false);
}

/// `k` is where a line of `t` starts.
pub open spec fn line_start(t: Seq<char>, k: int) -> bool {
    0 <= k <= t.len() && (k == 0 || t[k - 1] == '\n')
}

/// No line of `t` starts with the start marker.
pub open spec fn no_marker_line(t: Seq<char>) -> bool {
    forall|k: int| #[trigger] line_start(t, k) ==> !has_prefix(t.skip(k), START_MARKER_PREFIX@)
}

/// A prefix of text with no marker line has none.
pub proof fn lemma_no_marker_prefix(t: Seq<char>, n: int)
    requires
        no_marker_line(t),
        0 <= n <= t.len(),
    ensures
        no_marker_line(t.take(n)),
{
    let p = START_MARKER_PREFIX@;
    let u = t.take(n);
    assert forall|k: int| #[trigger] line_start(u, k) implies !has_prefix(u.skip(k), p) by {
        if k > 0 {
            assert(u[k - 1] == t[k - 1]);
        }
        assert(line_start(t, k));
        if has_prefix(u.skip(k), p) {
            assert(u.skip(k).take(p.len() as int) =~= t.skip(k).take(p.len() as int));
        }
    }
}

/// What follows a line start of text with no marker line has none.
pub proof fn lemma_no_marker_suffix(t: Seq<char>, a: int)
    requires
        no_marker_line(t),
        line_start(t, a),
    ensures
        no_marker_line(t.skip(a)),
{
    let p = START_MARKER_PREFIX@;
    let u = t.skip(a);
    assert forall|k: int| #[trigger] line_start(u, k) implies !has_prefix(u.skip(k), p) by {
        if k > 0 {
            assert(u[k - 1] == t[a + k - 1]);
        }
        assert(line_start(t, a + k));
        assert(u.skip(k) =~= t.skip(a + k));
    }
}

/// Adding a line that does not start with the marker keeps text free of
/// marker lines.
pub proof fn lemma_no_marker_append(buf: Seq<char>, l: Seq<char>)
    requires
        buf.len() == 0 || buf.last() == '\n',
        no_marker_line(buf),
        !l.contains('\n'),
        !has_prefix(l, START_MARKER_PREFIX@),
    ensures
        no_marker_line(buf + l.push('\n')),
{
    lemma_marker_facts();
    let p = START_MARKER_PREFIX@;
    let t = buf + l.push('\n');
    let bl = buf.len() as int;
    assert forall|k: int| #[trigger] line_start(t, k) implies !has_prefix(t.skip(k), p) by {
        if has_prefix(t.skip(k), p) {
            if k < bl {
                if k > 0 {
                    assert(buf[k - 1] == t[k - 1]);
                }
                assert(line_start(buf, k));
                if k + p.len() <= bl {
                    assert(buf.skip(k).take(p.len() as int) =~= t.skip(k).take(p.len() as int));
                } else {
                    assert(t.skip(k).take(p.len() as int)[bl - 1 - k] == buf[bl - 1]);
                    assert(p[bl - 1 - k] == '\n');
                    assert(p.contains('\n'));
                }
            } else if k == bl {
                if l.len() >= p.len() {
                    assert(l.take(p.len() as int) =~= t.skip(k).take(p.len() as int));
                } else {
                    assert(t.skip(k).take(p.len() as int)[l.len() as int] == '\n');
                    assert(p.contains('\n'));
                }
            } else if k <= bl + l.len() {
                assert(t[k - 1] == l[k - 1 - bl]);
                assert(l.contains(l[k - 1 - bl]));
            } else {
                assert(t.skip(k).len() == 0);
            }
        }
    }
}

/// Each line of text with no marker line and no carriage return before a
/// newline does not start with the marker.
pub proof fn lemma_lines_no_marker(c: Seq<char>)
    requires
        no_marker_line(c),
        !has_crlf(c.push('\n')),
    ensures
        forall|k: int| 0 <= k < lines_spec(c.push('\n')).len() ==> !has_prefix(
            #[trigger] lines_spec(c.push('\n'))[k],
            START_MARKER_PREFIX@,
        ),
    decreases c.len(),
{
    let p = START_MARKER_PREFIX@;
    assert(line_start(c, 0));
    assert(c.skip(0) =~= c);
    if !c.contains('\n') {
        lemma_split_lines_line(c, Seq::<char>::empty(), Seq::<char>::empty());
        assert(c.push('\n') + Seq::<char>::empty() =~= c.push('\n'));
        assert(Seq::<char>::empty() + c =~= c);
        assert(strip_cr(c) == c) by {
            if c.len() > 0 && c.last() == '\r' {
                assert(c.push('\n')[c.len() - 1] == '\r');
                assert(c.push('\n')[(c.len() - 1) + 1] == '\n');
            }
        }
        assert(split_lines(Seq::<char>::empty(), Seq::<char>::empty()) =~= Seq::<Seq<char>>::empty());
        assert(lines_spec(c.push('\n')) =~= seq![c]);
    } else {
        crate::config::lemma_find_char(c, '\n');
        let i = crate::config::find_char(c, '\n')->0;
        let a = c.take(i);
        let rest = c.skip(i + 1);
        assert(c.push('\n') =~= a.push('\n') + rest.push('\n'));
        assert(!a.contains('\n'));
        lemma_split_lines_line(a, rest.push('\n'), Seq::<char>::empty());
        assert(Seq::<char>::empty() + a =~= a);
        assert(strip_cr(a) == a) by {
            if a.len() > 0 && a.last() == '\r' {
                assert(c.push('\n')[i - 1] == '\r');
                assert(c.push('\n')[(i - 1) + 1] == '\n');
            }
        }
        if has_prefix(a, p) {
            assert(c.take(p.len() as int) =~= a.take(p.len() as int));
        }
        assert(line_start(c, i + 1));
        lemma_no_marker_suffix(c, i + 1);
        assert(!has_crlf(rest.push('\n'))) by {
            if has_crlf(rest.push('\n')) {
                let j = choose|j: int| 0 <= j < rest.push('\n').len() - 1 && rest.push('\n')[j] == '\r' && #[trigger] rest.push('\n')[j + 1] == '\n';
                assert(c.push('\n')[i + 1 + j] == '\r');
                assert(c.push('\n')[i + 1 + j + 1] == '\n');
            }
        }
        lemma_lines_no_marker(rest);
        let ls = lines_spec(c.push('\n'));
        let lr = lines_spec(rest.push('\n'));
        assert(ls == seq![a] + lr);
        assert forall|k: int| 0 <= k < ls.len() implies !has_prefix(#[trigger] ls[k], p) by {
            if k > 0 {
                assert(ls[k] == lr[k - 1]);
            }
        }
    }
}

/// The lines of text hold no newline, and no character that the text does
/// not hold.
pub proof fn lemma_split_lines_without(s: Seq<char>, cur: Seq<char>, ch: char)
    requires
        !cur.contains(ch),
        ch == '\n' || !s.contains(ch),
        !cur.contains('\n'),
    ensures
        forall|k: int| 0 <= k < split_lines(s, cur).len() ==> !(#[trigger] split_lines(s, cur)[k]).contains(ch),
    decreases s.len(),
{
    if s.len() == 0 {
        if cur.len() > 0 {
            assert(split_lines(s, cur) =~= seq![cur]);
            assert(split_lines(s, cur)[0] == cur);
        } else {
            assert(split_lines(s, cur).len() == 0);
        }
    } else if s[0] == '\n' {
        let d = s.drop_first();
        assert(ch == '\n' || !d.contains(ch)) by {
            if ch != '\n' && d.contains(ch) {
                let j = choose|j: int| 0 <= j < d.len() && d[j] == ch;
                assert(s[j + 1] == ch);
            }
        }
        lemma_split_lines_without(d, Seq::<char>::empty(), ch);
        let l = strip_cr(cur);
        assert(!l.contains(ch)) by {
            if l.contains(ch) {
                let j = choose|j: int| 0 <= j < l.len() && l[j] == ch;
                assert(cur[j] == ch);
            }
        }
        let r = split_lines(s, cur);
        assert(r == seq![l] + split_lines(d, Seq::<char>::empty()));
        assert forall|k: int| 0 <= k < r.len() implies !(#[trigger] r[k]).contains(ch) by {
            if k == 0 {
                assert(r[0] == l);
            } else {
                assert(r[k] == split_lines(d, Seq::<char>::empty())[k - 1]);
            }
        }
    } else {
        let d = s.drop_first();
        assert(ch == '\n' || !d.contains(ch)) by {
            if ch != '\n' && d.contains(ch) {
                let j = choose|j: int| 0 <= j < d.len() && d[j] == ch;
                assert(s[j + 1] == ch);
            }
        }
        let c2 = cur.push(s[0]);
        assert(!c2.contains(ch) && !c2.contains('\n')) by {
            if c2.contains(ch) || c2.contains('\n') {
                if c2.contains(ch) {
                    let j = choose|j: int| 0 <= j < c2.len() && c2[j] == ch;
                    if j < cur.len() {
                        assert(cur[j] == ch);
                    } else {
                        assert(s.contains(s[0]));
                    }
                }
                if c2.contains('\n') {
                    let j = choose|j: int| 0 <= j < c2.len() && c2[j] == '\n';
                    if j < cur.len() {
                        assert(cur[j] == '\n');
                    }
                }
            }
        }
        lemma_split_lines_without(d, c2, ch);
        assert(split_lines(s, cur) == split_lines(d, c2));
    }
}

/// Lines joined hold no character that none of them holds but the newline.
pub proof fn lemma_join_lines_without(x: Seq<Seq<char>>, ch: char)
    requires
        ch != '\n',
        forall|k: int| 0 <= k < x.len() ==> !(#[trigger] x[k]).contains(ch),
    ensures
        !join_lines(x).contains(ch),
    decreases x.len(),
{
    if x.len() > 0 {
        let d = x.drop_last();
        assert forall|k: int| 0 <= k < d.len() implies !(#[trigger] d[k]).contains(ch) by {
            assert(d[k] == x[k]);
        }
        lemma_join_lines_without(d, ch);
        let j = join_lines(x);
        let a = join_lines(d);
        let l = x.last();
        assert(!l.contains(ch)) by {
            assert(x[x.len() - 1] == l);
        }
        if j.contains(ch) {
            let i = choose|i: int| 0 <= i < j.len() && j[i] == ch;
            if i < a.len() {
                assert(a[i] == ch);
            } else if i < a.len() + l.len() {
                assert(l[i - a.len()] == ch);
            }
        }
    }
}

/// The shape of a block as it is read: custom text is not empty, ends with
/// a newline and has no marker line; a section's content is empty or ends
/// with a newline and its name holds no newline.
pub open spec fn block_shape(b: BlockView) -> bool {
    match b {
        BlockView::Custom(c) => c.len() > 0 && c.last() == '\n' && no_marker_line(c),
        BlockView::Managed { name, content } => (content.len() == 0 || content.last() == '\n')
            && !name.contains('\n'),
    }
}

/// Custom text is followed by a managed section, if by anything.
pub open spec fn no_adjacent_custom(bs: Seq<BlockView>) -> bool {
    forall|i: int| 0 <= i < bs.len() - 1 && (#[trigger] bs[i]) is Custom ==> bs[i + 1] is Managed
}

/// The shape of blocks as they are read.
pub open spec fn parsed_shape(bs: Seq<BlockView>) -> bool {
    &&& no_adjacent_custom(bs)
    &&& forall|i: int| 0 <= i < bs.len() ==> block_shape(#[trigger] bs[i])
}

/// A block holds no carriage return.
pub open spec fn block_no_cr(b: BlockView) -> bool {
    match b {
        BlockView::Custom(c) => !c.contains('\r'),
        BlockView::Managed { name, content } => !name.contains('\r') && !content.contains('\r'),
    }
}

/// No block holds a carriage return.
pub open spec fn blocks_no_cr(bs: Seq<BlockView>) -> bool {
    forall|i: int| 0 <= i < bs.len() ==> block_no_cr(#[trigger] bs[i])
}

/// Shapes of two parts, the first not ending with custom text unless the
/// second starts with a section, make the shape of the whole.
pub proof fn lemma_shape_concat(a: Seq<BlockView>, b: Seq<BlockView>)
    requires
        parsed_shape(a),
        parsed_shape(b),
        a.len() > 0 && a.last() is Custom && b.len() > 0 ==> b[0] is Managed,
    ensures
        parsed_shape(a + b),
        blocks_no_cr(a) && blocks_no_cr(b) ==> blocks_no_cr(a + b),
{
    let ab = a + b;
    assert forall|i: int| 0 <= i < ab.len() - 1 && (#[trigger] ab[i]) is Custom implies ab[i + 1] is Managed by {
        if i < a.len() - 1 {
            assert(ab[i] == a[i]);
            assert(ab[i + 1] == a[i + 1]);
        } else if i == a.len() - 1 {
            assert(ab[i] == a.last());
            assert(ab[i + 1] == b[0]);
        } else {
            assert(ab[i] == b[i - a.len()]);
            assert(ab[i + 1] == b[i + 1 - a.len()]);
        }
    }
    assert forall|i: int| 0 <= i < ab.len() implies block_shape(#[trigger] ab[i]) by {
        if i < a.len() {
            assert(ab[i] == a[i]);
        } else {
            assert(ab[i] == b[i - a.len()]);
        }
    }
    if blocks_no_cr(a) && blocks_no_cr(b) {
        assert forall|i: int| 0 <= i < ab.len() implies block_no_cr(#[trigger] ab[i]) by {
            if i < a.len() {
                assert(ab[i] == a[i]);
            } else {
                assert(ab[i] == b[i - a.len()]);
            }
        }
    }
}

/// Empty text has no marker line.
pub proof fn lemma_no_marker_empty()
    ensures
        no_marker_line(Seq::<char>::empty()),
{
    lemma_marker_facts();
    assert forall|k: int| #[trigger] line_start(Seq::<char>::empty(), k) implies !has_prefix(
        Seq::<char>::empty().skip(k),
        START_MARKER_PREFIX@,
    ) by {
        assert(k == 0);
    }
}

/// Reading lines gives blocks of the read shape, and with no carriage
/// return in the lines and the pending text, blocks without one.
pub proof fn lemma_parse_from_shape(ls: Seq<Seq<char>>, i: int, buf: Seq<char>, nocr: bool)
    requires
        0 <= i,
        forall|k: int| 0 <= k < ls.len() ==> !(#[trigger] ls[k]).contains('\n'),
        nocr ==> forall|k: int| 0 <= k < ls.len() ==> !(#[trigger] ls[k]).contains('\r'),
        buf.len() == 0 || buf.last() == '\n',
        no_marker_line(buf),
        nocr ==> !buf.contains('\r'),
    ensures
        parsed_shape(parse_from(ls, i, buf)),
        nocr ==> blocks_no_cr(parse_from(ls, i, buf)),
    decreases ls.len() + 1 - i,
{
    let fb = flush(buf);
    assert(parsed_shape(fb) && (nocr ==> blocks_no_cr(fb))) by {
        if buf.len() > 0 {
            assert(fb[0] == BlockView::Custom(buf));
        }
    }
    if i >= ls.len() {
    } else if has_prefix(ls[i], START_MARKER_PREFIX@) {
        let p = START_MARKER_PREFIX@;
        let name = ls[i].skip(p.len() as int);
        let j = find_line(ls, i + 1, end_line(name));
        lemma_find_line_bounds(ls, i + 1, end_line(name));
        let x = ls.subrange(i + 1, j);
        let content = join_lines(x);
        let m = BlockView::Managed { name: name, content: content };
        lemma_no_marker_empty();
        lemma_parse_from_shape(ls, j + 1, Seq::<char>::empty(), nocr);
        let rest = parse_from(ls, j + 1, Seq::<char>::empty());
        assert(!name.contains('\n')) by {
            if name.contains('\n') {
                let q = choose|q: int| 0 <= q < name.len() && name[q] == '\n';
                assert(ls[i][p.len() + q] == '\n');
            }
        }
        assert(content.len() == 0 || content.last() == '\n') by {
            if x.len() > 0 {
                assert(content == join_lines(x.drop_last()) + x.last().push('\n'));
            }
        }
        if nocr {
            assert(!name.contains('\r')) by {
                if name.contains('\r') {
                    let q = choose|q: int| 0 <= q < name.len() && name[q] == '\r';
                    assert(ls[i][p.len() + q] == '\r');
                }
            }
            assert forall|k: int| 0 <= k < x.len() implies !(#[trigger] x[k]).contains('\r') by {
                assert(x[k] == ls[i + 1 + k]);
            }
            lemma_join_lines_without(x, '\r');
        }
        assert(block_shape(m));
        assert(parsed_shape(seq![m]) && (nocr ==> blocks_no_cr(seq![m]))) by {
            assert(seq![m][0] == m);
        }
        lemma_shape_concat(fb, seq![m]);
        assert((fb + seq![m]).last() == m);
        lemma_shape_concat(fb + seq![m], rest);
    } else {
        let l = ls[i];
        lemma_no_marker_append(buf, l);
        let b2 = buf + l.push('\n');
        if nocr {
            assert(!b2.contains('\r')) by {
                if b2.contains('\r') {
                    let q = choose|q: int| 0 <= q < b2.len() && b2[q] == '\r';
                    if q < buf.len() {
                        assert(buf[q] == '\r');
                    } else if q < buf.len() + l.len() {
                        assert(l[q - buf.len()] == '\r');
                    }
                }
            }
        }
        lemma_parse_from_shape(ls, i + 1, b2, nocr);
    }
}

/// What parsing a file gives: custom text is followed by a managed section,
/// if by anything; every custom block is non-empty and ends with a newline,
/// and none of its lines starts with the start marker; every managed
/// section's content is empty or ends with a newline, and its name holds no
/// newline. A file without carriage returns gives blocks without them.
pub proof fn law_parse_structure(content: Seq<char>)
    ensures
        parsed_shape(parse_spec(content)),
        !content.contains('\r') ==> blocks_no_cr(parse_spec(content)),
{
    let ls = lines_spec(content);
    lemma_split_lines_without(content, Seq::<char>::empty(), '\n');
    if !content.contains('\r') {
        lemma_split_lines_without(content, Seq::<char>::empty(), '\r');
    }
    lemma_no_marker_empty();
    lemma_parse_from_shape(ls, 0, Seq::<char>::empty(), !content.contains('\r'));
}

/// Custom text in rendered form that reads back as itself: not empty,
/// ending with a character other than whitespace, without a carriage return
/// before a newline or a marker line, and without leading blank lines when
/// it follows a section.
pub open spec fn custom_ok(c: Seq<char>, after: bool) -> bool {
    &&& c.len() > 0
    &&& !is_white_space(c.last())
    &&& !has_crlf(c)
    &&& no_marker_line(c)
    &&& after ==> strip_blank_lines(c) == c
}

/// A section in rendered form that reads back with its name and its lines:
/// its name is fit for a marker line, its content is trimmed and no line of
/// it is the section's end line.
pub open spec fn managed_ok(b: BlockView) -> bool {
    match b {
        BlockView::Managed { name, content } => {
            &&& name_clean(name)
            &&& content == trim_spec(content)
            &&& !lines_spec(body_of(content)).contains(end_line(name))
        },
        BlockView::Custom(_) => false,
    }
}

/// A block as it reads back: a section's content is what its lines join to,
/// trimmed (a carriage return before a newline is dropped), custom text as
/// it is.
pub open spec fn fix_block(b: BlockView) -> BlockView {
    match b {
        BlockView::Managed { name, content } => BlockView::Managed {
            name: name,
            content: trim_spec(join_lines(lines_spec(body_of(content)))),
        },
        BlockView::Custom(_) => b,
    }
}

/// Each block as it reads back.
pub open spec fn fix(bs: Seq<BlockView>) -> Seq<BlockView> {
    bs.map_values(|b: BlockView| fix_block(b))
}

/// Reading back a block followed by others.
pub proof fn lemma_fix_front(x: BlockView, d: Seq<BlockView>)
    ensures
        fix(seq![x] + d) == seq![fix_block(x)] + fix(d),
        fix(Seq::<BlockView>::empty()) == Seq::<BlockView>::empty(),
{
    assert(fix(seq![x] + d) =~= seq![fix_block(x)] + fix(d));
    assert(fix(Seq::<BlockView>::empty()) =~= Seq::<BlockView>::empty());
}

/// A section read back from its rendered lines renders as it reads.
pub proof fn lemma_managed_fix(n: Seq<char>, c: Seq<char>)
    ensures
        norm_block(BlockView::Managed { name: n, content: join_lines(lines_spec(body_of(c))) }, true)
            == seq![fix_block(BlockView::Managed { name: n, content: c })],
{
}

/// A block after a section that reads back as itself.
pub open spec fn block_ok_after(b: BlockView) -> bool {
    match b {
        BlockView::Custom(c) => custom_ok(c, true),
        BlockView::Managed { .. } => managed_ok(b),
    }
}

/// Blocks in rendered form, starting with a section, that read back as
/// themselves.
pub open spec fn clean_after(nb: Seq<BlockView>) -> bool {
    &&& (nb.len() == 0 || nb[0] is Managed)
    &&& no_adjacent_custom(nb)
    &&& forall|i: int| 0 <= i < nb.len() ==> block_ok_after(#[trigger] nb[i])
}

/// Blocks in rendered form that read back as themselves: custom text
/// first, if any, then blocks that start with a section.
pub open spec fn clean(nb: Seq<BlockView>) -> bool {
    if nb.len() > 0 && nb[0] is Custom {
        custom_ok(nb[0]->0, false) && clean_after(nb.drop_first())
    } else {
        clean_after(nb)
    }
}

/// What follows a section in clean blocks is clean.
pub proof fn lemma_clean_after_skip(nb: Seq<BlockView>, k: int)
    requires
        clean_after(nb),
        0 <= k <= nb.len(),
        k == nb.len() || nb[k] is Managed,
    ensures
        clean_after(nb.skip(k)),
{
    let t = nb.skip(k);
    assert forall|i: int| 0 <= i < t.len() - 1 && (#[trigger] t[i]) is Custom implies t[i + 1] is Managed by {
        assert(t[i] == nb[k + i]);
        assert(t[i + 1] == nb[k + i + 1]);
    }
    assert forall|i: int| 0 <= i < t.len() implies block_ok_after(#[trigger] t[i]) by {
        assert(t[i] == nb[k + i]);
    }
}

/// Text that ends with a character other than whitespace, followed by
/// whitespace, trims back to it.
pub proof fn lemma_trim_end_ws_tail(a: Seq<char>, w: Seq<char>)
    requires
        a.len() > 0,
        !is_white_space(a.last()),
        forall|j: int| 0 <= j < w.len() ==> is_white_space(#[trigger] w[j]),
    ensures
        trim_end_spec(a + w) == a,
    decreases w.len(),
{
    if w.len() == 0 {
        assert(a + w =~= a);
    } else {
        let d = w.drop_last();
        assert forall|j: int| 0 <= j < d.len() implies is_white_space(#[trigger] d[j]) by {
            assert(d[j] == w[j]);
        }
        lemma_trim_end_ws_tail(a, d);
        assert((a + w).drop_last() =~= a + d);
        assert((a + w).last() == w[w.len() - 1]);
    }
}

/// Custom text in rendered form renders as itself and a newline, and its
/// lines join back to that text, none starting with the marker.
pub proof fn lemma_custom_read(c: Seq<char>, f: bool)
    requires
        custom_ok(c, f),
    ensures
        render_spec(BlockView::Custom(c), f) == Some(c.push('\n')),
        join_lines(lines_spec(c.push('\n'))) == c.push('\n'),
        forall|k: int| 0 <= k < lines_spec(c.push('\n')).len() ==> !has_prefix(
            #[trigger] lines_spec(c.push('\n'))[k],
            START_MARKER_PREFIX@,
        ),
        c.push('\n').len() > 0 && c.push('\n').last() == '\n',
{
    assert(trim_end_spec(c) == c);
    let cc = c.push('\n');
    lemma_newline_is_ws();
    assert(!has_crlf(cc)) by {
        if has_crlf(cc) {
            let i = choose|i: int| 0 <= i < cc.len() - 1 && cc[i] == '\r' && #[trigger] cc[i + 1] == '\n';
            if i + 1 < c.len() {
                assert(c[i] == '\r' && c[i + 1] == '\n');
            } else {
                assert(c[i] == c.last());
                assert(is_white_space('\r'));
            }
        }
    }
    assert(!has_crlf(Seq::<char>::empty() + cc)) by {
        assert(Seq::<char>::empty() + cc =~= cc);
    }
    lemma_join_split_lines(cc, Seq::<char>::empty());
    assert(Seq::<char>::empty() + cc =~= cc);
    lemma_lines_no_marker(c);
}

/// A trimmed content without a carriage return before a newline: its lines
/// join back to it and a newline, which trims back to it.
pub proof fn lemma_body_read(c: Seq<char>)
    requires
        c == trim_spec(c),
        !has_crlf(c),
    ensures
        join_lines(lines_spec(body_of(c))) == body_of(c),
        trim_spec(body_of(c)) == c,
{
    lemma_newline_is_ws();
    lemma_trim_body(c);
    let body = body_of(c);
    if body.len() > 0 {
        lemma_trim_shape(c);
        assert(!has_crlf(Seq::<char>::empty() + body)) by {
            assert(Seq::<char>::empty() + body =~= body);
            if has_crlf(body) {
                let i = choose|i: int| 0 <= i < body.len() - 1 && body[i] == '\r' && #[trigger] body[i + 1] == '\n';
                if i + 1 < c.len() {
                    assert(c[i] == '\r' && c[i + 1] == '\n');
                } else {
                    assert(c[i] == c.last());
                    assert(is_white_space('\r'));
                }
            }
        }
        lemma_join_split_lines(body, Seq::<char>::empty());
        assert(Seq::<char>::empty() + body =~= body);
    } else {
        assert(lines_spec(body) =~= Seq::<Seq<char>>::empty());
    }
}

/// A clean section renders to its start line, the lines of its content and
/// its end line, none of which is its end line; it reads back as it reads.
pub proof fn lemma_managed_read(n: Seq<char>, c: Seq<char>)
    requires
        managed_ok(BlockView::Managed { name: n, content: c }),
    ensures
        render_spec(BlockView::Managed { name: n, content: c }, false) matches Some(r) && lines_spec(r)
            == seq![start_line(n)] + lines_spec(body_of(c)) + seq![end_line(n)],
        forall|k: int| 0 <= k < lines_spec(body_of(c)).len() ==> #[trigger] lines_spec(body_of(c))[k] != end_line(n),
{
    lemma_lines_managed(n, c);
    let x = lines_spec(body_of(c));
    assert forall|k: int| 0 <= k < x.len() implies #[trigger] x[k] != end_line(n) by {
        if x[k] == end_line(n) {
            assert(x.contains(end_line(n)));
        }
    }
}

/// Blocks that start with a section render and read the same after a
/// section as anywhere.
pub proof fn lemma_after_section(d: Seq<BlockView>)
    requires
        d.len() == 0 || d[0] is Managed,
    ensures
        rendered_from(d, true) == rendered_from(d, false),
        norm_from(d, true) == norm_from(d, false),
{
    if d.len() > 0 {
        let t = d.drop_first();
        assert(seq![d[0]] + t =~= d);
        lemma_rendered_front(d[0], t, true);
        lemma_rendered_front(d[0], t, false);
        lemma_norm_front(d[0], t, true);
        lemma_norm_front(d[0], t, false);
    }
}

/// The newline is whitespace.
pub proof fn lemma_newline_is_ws()
    ensures
        is_white_space('\n'),
{
    assert('\n' as u32 == 10);
}

/// Serializing blocks and parsing the text after the pending custom text
/// `buf` gives that text, then the blocks `p`, which render as the given
/// ones and start with a section, if with anything.
pub open spec fn reparsed(nb: Seq<BlockView>, buf: Seq<char>, p: Seq<BlockView>) -> bool {
    &&& parse_from(lines_spec(serialize_spec(nb)), 0, buf) == flush(buf) + p
    &&& norm_from(p, true) == fix(nb)
    &&& (p.len() == 0 || p[0] is Managed)
}

/// The text pending after custom text `c` that follows a section and comes
/// before another: the blank line before it, it, and the blank line after.
pub open spec fn gap_text(c: Seq<char>) -> Seq<char> {
    seq!['\n'] + c.push('\n') + seq!['\n']
}

/// Reading back a single clean section.
proof fn lemma_reparse_one(nb: Seq<BlockView>, buf: Seq<char>) -> (p: Seq<BlockView>)
    requires
        clean_after(nb),
        nb.len() == 1,
    ensures
        reparsed(nb, buf, p),
{
    lemma_marker_facts();
    lemma_newline_is_ws();
    let e = Seq::<char>::empty();
    let m = nb[0];
    assert(block_ok_after(m));
    let n = m->name;
    let c = m->content;
    assert(m == BlockView::Managed { name: n, content: c });
    let rest = nb.drop_first();
    assert(seq![m] + rest =~= nb);
    lemma_managed_read(n, c);
    let rm = render_spec(m, false)->0;
    let x = lines_spec(body_of(c));
    let mblk = BlockView::Managed { name: n, content: join_lines(x) };
    lemma_rendered_front(m, rest, false);
    assert(rm.len() > 0 && rm.last() == '\n');
    assert(rendered_from(rest, true) =~= Seq::<Seq<char>>::empty());
    assert(rendered(nb) =~= seq![rm]);
    let ls = seq![start_line(n)] + x + seq![end_line(n)] + Seq::<Seq<char>>::empty();
    assert(ls =~= lines_spec(rm));
    lemma_parse_managed(n, x, Seq::<Seq<char>>::empty(), buf);
    assert(parse_from(Seq::<Seq<char>>::empty(), 0, e) =~= Seq::<BlockView>::empty());
    let p = seq![mblk];
    assert(flush(buf) + seq![mblk] + Seq::<BlockView>::empty() =~= flush(buf) + p);
    lemma_norm_front(mblk, Seq::<BlockView>::empty(), true);
    assert(seq![mblk] + Seq::<BlockView>::empty() =~= p);
    assert(norm_from(Seq::<BlockView>::empty(), true) =~= Seq::<BlockView>::empty());
    lemma_managed_fix(n, c);
    lemma_fix_front(m, Seq::<BlockView>::empty());
    assert(nb =~= seq![m] + Seq::<BlockView>::empty());
    assert(norm_from(p, true) =~= fix(nb));
    p
}

/// Reading back a clean section followed by another.
#[verifier::rlimit(80)]
proof fn lemma_reparse_two_sections(nb: Seq<BlockView>, buf: Seq<char>, p2: Seq<BlockView>) -> (p: Seq<BlockView>)
    requires
        clean_after(nb),
        nb.len() > 1,
        nb[1] is Managed,
        reparsed(nb.drop_first(), seq!['\n'], p2),
    ensures
        reparsed(nb, buf, p),
{
    lemma_marker_facts();
    lemma_newline_is_ws();
    let e = Seq::<char>::empty();
    let m = nb[0];
    assert(block_ok_after(m));
    let n = m->name;
    let c = m->content;
    assert(m == BlockView::Managed { name: n, content: c });
    let rest = nb.drop_first();
    assert(seq![m] + rest =~= nb);
    lemma_managed_read(n, c);
    let rm = render_spec(m, false)->0;
    let x = lines_spec(body_of(c));
    let mblk = BlockView::Managed { name: n, content: join_lines(x) };
    lemma_rendered_front(m, rest, false);
    assert(rm.len() > 0 && rm.last() == '\n');
    lemma_clean_after_skip(nb, 1);
    assert(nb.skip(1) =~= rest);
    lemma_after_section(rest);
    let rr = rendered(rest);
    lemma_rendered_front(rest[0], rest.drop_first(), false);
    assert(seq![rest[0]] + rest.drop_first() =~= rest);
    assert(rr.len() > 0);
    lemma_join_newline_front(rm, rr);
    assert(rendered(nb) =~= seq![rm] + rr);
    let sr = serialize_spec(rest);
    lemma_lines_blank_between(rm, sr);
    let lr = lines_spec(sr);
    let tail = seq![e] + lr;
    let ls = seq![start_line(n)] + x + seq![end_line(n)] + tail;
    assert(lines_spec(serialize_spec(nb)) =~= ls);
    lemma_parse_managed(n, x, tail, buf);
    assert(!has_prefix(e, START_MARKER_PREFIX@));
    lemma_parse_custom_line(e, lr, e);
    assert(e + e.push('\n') =~= seq!['\n']);

    let cn = BlockView::Custom(seq!['\n']);
    assert(flush(seq!['\n']) == seq![cn]);
    let p = seq![mblk] + (seq![cn] + p2);
    assert(flush(buf) + seq![mblk] + (seq![cn] + p2) =~= flush(buf) + p);
    lemma_norm_front(mblk, seq![cn] + p2, true);
    lemma_norm_front(cn, p2, true);
    assert(seq!['\n'].drop_last() =~= e);
    assert(seq!['\n'].last() == '\n');
    assert(trim_end_spec(e) =~= e);
    assert(trim_end_spec(seq!['\n']) =~= e);
    assert(norm_block(cn, true) =~= Seq::<BlockView>::empty()) by {
        assert(strip_blank_lines(e).len() == 0);
    }
    lemma_managed_fix(n, c);
    lemma_fix_front(m, rest);
    assert(norm_from(p, true) =~= seq![fix_block(m)] + fix(rest));
    p
}

/// Reading back a clean section followed by custom text, and nothing else.
proof fn lemma_reparse_custom_last(nb: Seq<BlockView>, buf: Seq<char>) -> (p: Seq<BlockView>)
    requires
        clean_after(nb),
        nb.len() == 2,
        nb[1] is Custom,
    ensures
        reparsed(nb, buf, p),
{
    lemma_marker_facts();
    lemma_newline_is_ws();
    let e = Seq::<char>::empty();
    let m = nb[0];
    assert(block_ok_after(m));
    let n = m->name;
    let c = m->content;
    assert(m == BlockView::Managed { name: n, content: c });
    let rest = nb.drop_first();
    assert(seq![m] + rest =~= nb);
    lemma_managed_read(n, c);
    let rm = render_spec(m, false)->0;
    let x = lines_spec(body_of(c));
    let mblk = BlockView::Managed { name: n, content: join_lines(x) };
    lemma_rendered_front(m, rest, false);
    assert(rm.len() > 0 && rm.last() == '\n');
    let c1 = rest[0]->0;
    assert(nb[1] == rest[0]);
    assert(block_ok_after(nb[1]));
    assert(custom_ok(c1, true));
    let rest2 = rest.drop_first();
    assert(seq![rest[0]] + rest2 =~= rest);
    assert(rest2.len() == 0 || rest2[0] is Managed) by {
        if rest2.len() > 0 {
            assert(nb[2] == rest2[0]);
        }
    }
    lemma_rendered_front(rest[0], rest2, true);
    lemma_custom_read(c1, true);
    lemma_after_section(rest2);
    let cc = c1.push('\n');
    let y = lines_spec(cc);
    let cb = BlockView::Custom(c1);
    assert(rest[0] == cb);
    assert(rendered_from(rest2, true) =~= Seq::<Seq<char>>::empty());
    assert(rendered(nb) =~= seq![rm] + seq![cc]);
    lemma_join_newline_front(rm, seq![cc]);
    assert(join_newline(seq![cc]) == cc);
    lemma_lines_blank_between(rm, cc);
    let tail = seq![e] + y;
    let ls = seq![start_line(n)] + x + seq![end_line(n)] + tail;
    assert(lines_spec(serialize_spec(nb)) =~= ls);
    lemma_parse_managed(n, x, tail, buf);
    let z = seq![e] + y;
    assert forall|k: int| 0 <= k < z.len() implies !has_prefix(#[trigger] z[k], START_MARKER_PREFIX@) by {
        if k > 0 {
            assert(z[k] == y[k - 1]);
        }
    }
    lemma_parse_custom_lines(z, Seq::<Seq<char>>::empty(), e);
    assert(z + Seq::<Seq<char>>::empty() =~= tail);
    lemma_join_lines_front(e, y);
    let buf2 = seq!['\n'] + cc;
    assert(e + join_lines(z) =~= buf2);
    assert(parse_from(Seq::<Seq<char>>::empty(), 0, buf2) == flush(buf2));
    let cb2 = BlockView::Custom(buf2);
    assert(flush(buf2) == seq![cb2]);
    let p = seq![mblk] + seq![cb2];
    assert(flush(buf) + seq![mblk] + seq![cb2] =~= flush(buf) + p);
    lemma_norm_front(mblk, seq![cb2], true);
    lemma_norm_front(cb2, Seq::<BlockView>::empty(), true);
    assert(seq![cb2] + Seq::<BlockView>::empty() =~= seq![cb2]);
    assert(norm_from(Seq::<BlockView>::empty(), true) =~= Seq::<BlockView>::empty());
    assert(buf2 =~= (seq!['\n'] + c1) + seq!['\n']);
    assert((seq!['\n'] + c1).last() == c1.last());
    lemma_trim_end_ws_tail(seq!['\n'] + c1, seq!['\n']);
    lemma_strip_newline_front(c1);
    assert(norm_block(cb2, true) =~= seq![cb]);
    lemma_managed_fix(n, c);
    lemma_fix_front(m, seq![cb]);
    lemma_fix_front(cb, Seq::<BlockView>::empty());
    assert(seq![cb] + Seq::<BlockView>::empty() =~= seq![cb]);
    assert(nb =~= seq![m] + seq![cb]);
    assert(norm_from(p, true) =~= seq![fix_block(m)] + seq![cb]);
    p
}

/// The lines of a clean section followed by custom text and more: the
/// section's lines, the gap around the custom text, and the rest.
#[verifier::rlimit(80)]
proof fn lemma_between_lines(nb: Seq<BlockView>)
    requires
        clean_after(nb),
        nb.len() > 2,
        nb[1] is Custom,
    ensures
        ({
            let e = Seq::<char>::empty();
            let n = nb[0]->name;
            let c = nb[0]->content;
            let z = seq![e] + lines_spec(nb[1]->0.push('\n')) + seq![e];
            &&& lines_spec(serialize_spec(nb)) == seq![start_line(n)] + lines_spec(body_of(c)) + seq![
                end_line(n),
            ] + (z + lines_spec(serialize_spec(nb.skip(2))))
            &&& forall|k: int| 0 <= k < z.len() ==> !has_prefix(#[trigger] z[k], START_MARKER_PREFIX@)
            &&& join_lines(z) == gap_text(nb[1]->0)
        }),
{
    lemma_marker_facts();
    let e = Seq::<char>::empty();
    let m = nb[0];
    assert(block_ok_after(m));
    let n = m->name;
    let c = m->content;
    assert(m == BlockView::Managed { name: n, content: c });
    let rest = nb.drop_first();
    assert(seq![m] + rest =~= nb);
    lemma_managed_read(n, c);
    let rm = render_spec(m, false)->0;
    let x = lines_spec(body_of(c));
    lemma_rendered_front(m, rest, false);
    let c1 = rest[0]->0;
    assert(nb[1] == rest[0]);
    assert(block_ok_after(nb[1]));
    let rest2 = rest.drop_first();
    assert(seq![rest[0]] + rest2 =~= rest);
    assert(nb.skip(2) =~= rest2);
    assert(rest2[0] is Managed) by {
        assert(nb[2] == rest2[0]);
    }
    lemma_rendered_front(rest[0], rest2, true);
    lemma_custom_read(c1, true);
    lemma_after_section(rest2);
    let cc = c1.push('\n');
    let y = lines_spec(cc);
    let rr2 = rendered(rest2);
    lemma_rendered_front(rest2[0], rest2.drop_first(), false);
    assert(seq![rest2[0]] + rest2.drop_first() =~= rest2);
    assert(rr2.len() > 0);
    assert(rendered(nb) =~= seq![rm] + (seq![cc] + rr2));
    lemma_join_newline_front(rm, seq![cc] + rr2);
    lemma_join_newline_front(cc, rr2);
    let s2 = serialize_spec(rest2);
    let t = cc.push('\n') + s2;
    lemma_lines_blank_between(rm, t);
    lemma_lines_blank_between(cc, s2);
    let lr2 = lines_spec(s2);
    let z = seq![e] + y + seq![e];
    let tail = seq![e] + (y + (seq![e] + lr2));
    assert(tail =~= z + lr2);
    assert(lines_spec(serialize_spec(nb)) =~= seq![start_line(n)] + x + seq![end_line(n)] + tail);
    assert forall|k: int| 0 <= k < z.len() implies !has_prefix(#[trigger] z[k], START_MARKER_PREFIX@) by {
        if 0 < k < z.len() - 1 {
            assert(z[k] == y[k - 1]);
        }
    }
    lemma_join_lines_front(e, y);
    lemma_join_lines_concat(seq![e] + y, seq![e]);
    assert(join_lines(seq![e]) =~= seq!['\n']) by {
        assert(seq![e].drop_last() =~= Seq::<Seq<char>>::empty());
        assert(seq![e].last() == e);
        assert(join_lines(Seq::<Seq<char>>::empty()) =~= e);
    }
    assert(join_lines(z) =~= gap_text(c1));
}

/// Reading back a clean section followed by custom text and more.
#[verifier::rlimit(80)]
proof fn lemma_reparse_custom_between(
    nb: Seq<BlockView>,
    buf: Seq<char>,
    p2: Seq<BlockView>,
) -> (p: Seq<BlockView>)
    requires
        clean_after(nb),
        nb.len() > 2,
        nb[1] is Custom,
        reparsed(nb.skip(2), gap_text(nb[1]->0), p2),
    ensures
        reparsed(nb, buf, p),
{
    lemma_newline_is_ws();
    let e = Seq::<char>::empty();
    let m = nb[0];
    assert(block_ok_after(m));
    let n = m->name;
    let c = m->content;
    assert(m == BlockView::Managed { name: n, content: c });
    lemma_managed_read(n, c);
    let x = lines_spec(body_of(c));
    let mblk = BlockView::Managed { name: n, content: join_lines(x) };
    let c1 = nb[1]->0;
    assert(block_ok_after(nb[1]));
    let cb = BlockView::Custom(c1);
    assert(nb[1] == cb);
    let rest2 = nb.skip(2);
    assert(nb =~= seq![m] + (seq![cb] + rest2));
    lemma_between_lines(nb);
    let z = seq![e] + lines_spec(c1.push('\n')) + seq![e];
    let lr2 = lines_spec(serialize_spec(rest2));
    lemma_parse_managed(n, x, z + lr2, buf);
    lemma_parse_custom_lines(z, lr2, e);
    let buf2 = gap_text(c1);
    assert(e + join_lines(z) =~= buf2);
    let cb2 = BlockView::Custom(buf2);
    assert(flush(buf2) == seq![cb2]);
    let p = seq![mblk] + (seq![cb2] + p2);
    assert(flush(buf) + seq![mblk] + (seq![cb2] + p2) =~= flush(buf) + p);
    lemma_norm_front(mblk, seq![cb2] + p2, true);
    lemma_norm_front(cb2, p2, true);
    assert(buf2 =~= (seq!['\n'] + c1) + seq!['\n', '\n']);
    assert((seq!['\n'] + c1).last() == c1.last());
    lemma_trim_end_ws_tail(seq!['\n'] + c1, seq!['\n', '\n']);
    lemma_strip_newline_front(c1);
    assert(norm_block(cb2, true) =~= seq![cb]);
    lemma_managed_fix(n, c);
    lemma_fix_front(m, seq![cb] + rest2);
    lemma_fix_front(cb, rest2);
    assert(norm_from(p, true) =~= seq![fix_block(m)] + (seq![cb] + fix(rest2)));
    p
}

/// Serializing clean blocks that start with a section and parsing the text
/// after the pending custom text `buf` gives that text, then blocks that
/// render as the given ones.
pub proof fn lemma_reparse_after(nb: Seq<BlockView>, buf: Seq<char>) -> (p: Seq<BlockView>)
    requires
        clean_after(nb),
    ensures
        reparsed(nb, buf, p),
    decreases nb.len(),
{
    if nb.len() == 0 {
        assert(rendered(nb) =~= Seq::<Seq<char>>::empty());
        assert(lines_spec(Seq::<char>::empty()) =~= Seq::<Seq<char>>::empty());
        assert(flush(buf) + Seq::<BlockView>::empty() =~= flush(buf));
        assert(serialize_spec(nb) =~= Seq::<char>::empty());
        assert(nb =~= Seq::<BlockView>::empty());
        assert(fix(nb) =~= Seq::<BlockView>::empty());
        Seq::<BlockView>::empty()
    } else if nb.len() == 1 {
        lemma_reparse_one(nb, buf)
    } else if nb[1] is Managed {
        lemma_clean_after_skip(nb, 1);
        assert(nb.skip(1) =~= nb.drop_first());
        let p2 = lemma_reparse_after(nb.drop_first(), seq!['\n']);
        lemma_reparse_two_sections(nb, buf, p2)
    } else if nb.len() == 2 {
        lemma_reparse_custom_last(nb, buf)
    } else {
        assert(nb[2] is Managed);
        lemma_clean_after_skip(nb, 2);
        let p2 = lemma_reparse_after(nb.skip(2), gap_text(nb[1]->0));
        lemma_reparse_custom_between(nb, buf, p2)
    }
}

/// Clean blocks in rendered form, serialized and parsed, render as they
/// read back.
pub proof fn lemma_reparse(nb: Seq<BlockView>)
    requires
        clean(nb),
    ensures
        norm(parse_spec(serialize_spec(nb))) == fix(nb),
{
    lemma_marker_facts();
    lemma_newline_is_ws();
    let e = Seq::<char>::empty();
    if nb.len() > 0 && nb[0] is Custom {
        let c0 = nb[0]->0;
        let cb = BlockView::Custom(c0);
        assert(nb[0] == cb);
        let rest = nb.drop_first();
        assert(seq![cb] + rest =~= nb);
        lemma_rendered_front(cb, rest, false);
        lemma_custom_read(c0, false);
        let cc = c0.push('\n');
        let y = lines_spec(cc);
        assert(y + Seq::<Seq<char>>::empty() =~= y);
        if rest.len() == 0 {
            assert(rendered_from(rest, false) =~= Seq::<Seq<char>>::empty());
            assert(rendered(nb) =~= seq![cc]);
            assert(serialize_spec(nb) == cc);
            lemma_parse_custom_lines(y, Seq::<Seq<char>>::empty(), e);
            assert(e + cc =~= cc);
            let cb2 = BlockView::Custom(cc);
            assert(parse_spec(cc) == seq![cb2]);
            lemma_norm_front(cb2, Seq::<BlockView>::empty(), false);
            assert(seq![cb2] + Seq::<BlockView>::empty() =~= seq![cb2]);
            assert(norm_from(Seq::<BlockView>::empty(), false) =~= Seq::<BlockView>::empty());
            lemma_trim_end_ws_tail(c0, seq!['\n']);
            assert(c0 + seq!['\n'] =~= cc);
            assert(norm_block(cb2, false) =~= seq![cb]);
            lemma_fix_front(cb, Seq::<BlockView>::empty());
            assert(nb =~= seq![cb] + Seq::<BlockView>::empty());
        } else {
            let rr = rendered(rest);
            lemma_rendered_front(rest[0], rest.drop_first(), false);
            assert(seq![rest[0]] + rest.drop_first() =~= rest);
            assert(rr.len() > 0);
            lemma_join_newline_front(cc, rr);
            let sr = serialize_spec(rest);
            lemma_lines_blank_between(cc, sr);
            let lr = lines_spec(sr);
            let z = y + seq![e];
            assert(lines_spec(serialize_spec(nb)) =~= z + lr);
            assert forall|k: int| 0 <= k < z.len() implies !has_prefix(#[trigger] z[k], START_MARKER_PREFIX@) by {
                if k < y.len() {
                    assert(z[k] == y[k]);
                }
            }
            lemma_parse_custom_lines(z, lr, e);
            lemma_join_lines_concat(y, seq![e]);
            assert(join_lines(seq![e]) =~= seq!['\n']) by {
                assert(seq![e].drop_last() =~= Seq::<Seq<char>>::empty());
                assert(seq![e].last() == e);
                assert(join_lines(Seq::<Seq<char>>::empty()) =~= e);
            }
            let buf = cc.push('\n');
            assert(e + join_lines(z) =~= buf);
            let p = lemma_reparse_after(rest, buf);
            let cb2 = BlockView::Custom(buf);
            assert(flush(buf) == seq![cb2]);
            lemma_norm_front(cb2, p, false);
            lemma_after_section(p);
            lemma_trim_end_ws_tail(c0, seq!['\n', '\n']);
            assert(c0 + seq!['\n', '\n'] =~= buf);
            assert(norm_block(cb2, false) =~= seq![cb]);
            lemma_fix_front(cb, rest);
        }
    } else {
        let p = lemma_reparse_after(nb, e);
        assert(flush(e) =~= Seq::<BlockView>::empty());
        assert(Seq::<BlockView>::empty() + p =~= p);
        lemma_after_section(p);
    }
}

/// A block as it is read from a file or made from a template: custom text
/// has no marker line.
pub open spec fn block_raw_ok(b: BlockView) -> bool {
    match b {
        BlockView::Custom(c) => no_marker_line(c),
        BlockView::Managed { .. } => true,
    }
}

/// Blocks as they are read from a file and patched: no custom text next to
/// other, and none with a marker line.
pub open spec fn raw_ok(bs: Seq<BlockView>) -> bool {
    &&& no_adjacent_custom(bs)
    &&& forall|i: int| 0 <= i < bs.len() ==> block_raw_ok(#[trigger] bs[i])
}

/// No section's content holds a line that is the section's end line.
pub open spec fn no_end_line_inside(bs: Seq<BlockView>) -> bool {
    forall|i: int|
        0 <= i < bs.len() && (#[trigger] bs[i]) is Managed ==> !lines_spec(body_of(bs[i]->content)).contains(
            end_line(bs[i]->name),
        )
}

/// A block keeps its lines when read back: custom text holds no carriage
/// return before a newline, and a section's name is fit for a marker line.
pub open spec fn line_safe(b: BlockView) -> bool {
    match b {
        BlockView::Custom(c) => !has_crlf(c),
        BlockView::Managed { name, .. } => name_clean(name),
    }
}

/// Every block keeps its lines when read back.
pub open spec fn lines_safe(bs: Seq<BlockView>) -> bool {
    forall|i: int| 0 <= i < bs.len() ==> line_safe(#[trigger] bs[i])
}

/// Every section that patching with `es` leaves as it is (met after the
/// sections whose keys are `done`) holds no carriage return before a newline.
pub open spec fn untouched_no_crlf(
    bs: Seq<BlockView>,
    es: Seq<(Seq<char>, Seq<char>)>,
    done: Set<Seq<char>>,
) -> bool
    decreases bs.len(),
{
    if bs.len() == 0 {
        true
    } else {
        &&& (bs[0] is Managed && !replaced(bs[0], es, done) ==> !has_crlf(bs[0]->content))
        &&& untouched_no_crlf(bs.drop_first(), es, next_done(bs[0], done))
    }
}

/// Every file reads as blocks of that kind.
pub proof fn lemma_parse_raw_ok(s: Seq<char>)
    ensures
        raw_ok(parse_spec(s)),
{
    law_parse_structure(s);
    let bs = parse_spec(s);
    assert forall|i: int| 0 <= i < bs.len() implies block_raw_ok(#[trigger] bs[i]) by {
        assert(block_shape(bs[i]));
    }
}

/// Patching blocks of that kind keeps them of that kind.
pub proof fn lemma_patch_raw_ok(bs: Seq<BlockView>, ts: Seq<(Seq<char>, Seq<char>)>)
    requires
        raw_ok(bs),
    ensures
        raw_ok(patch_spec(bs, ts)),
{
    let es = canonical(ts);
    let keys = managed_keys(bs);
    let pb = patch_blocks(bs, es, Set::empty());
    let u = unmatched(es, keys);
    let r = patch_spec(bs, ts);
    assert(r == pb + u);
    lemma_patch_blocks_elem(bs, es, Set::empty());
    lemma_patch_blocks_keys(bs, es, Set::empty());
    lemma_unmatched(es, keys);
    assert forall|a: int| 0 <= a < u.len() implies (#[trigger] u[a]) is Managed by {
        let j = choose|j: int| 0 <= j < es.len() && !keys.contains(key_of(es[j].0)) && #[trigger] unmatched(es, keys)[a] == managed_template(es[j]);
        assert(es.contains(es[j]));
    }
    assert forall|i: int| 0 <= i < r.len() implies block_raw_ok(#[trigger] r[i]) by {
        if i < bs.len() {
            assert(r[i] == pb[i]);
            assert(block_raw_ok(bs[i]));
            match bs[i] {
                BlockView::Managed { name, .. } => {
                    let k = key_of(name);
                    lemma_entry_of_found(es, k);
                },
                BlockView::Custom(_) => {},
            }
        } else {
            assert(r[i] == u[i - bs.len()]);
        }
    }
    assert forall|i: int| 0 <= i < r.len() - 1 && (#[trigger] r[i]) is Custom implies r[i + 1] is Managed by {
        if i < bs.len() {
            assert(r[i] == pb[i]);
            assert(bs[i] is Custom);
            if i + 1 < bs.len() {
                assert(r[i + 1] == pb[i + 1]);
                assert(bs[i + 1] is Managed);
            } else {
                assert(r[i + 1] == u[0]);
            }
        } else {
            assert(r[i] == u[i - bs.len()]);
        }
    }
}

/// A block of rendered blocks is fit to read back, given what comes before
/// it.
pub open spec fn block_ok_in(nb: Seq<BlockView>, i: int) -> bool {
    match nb[i] {
        BlockView::Custom(c) => custom_ok(c, has_managed(nb.take(i))),
        BlockView::Managed { .. } => managed_ok(nb[i]),
    }
}

/// Rendered blocks, each fit to read back, no custom text next to other.
pub open spec fn clean_q(nb: Seq<BlockView>) -> bool {
    &&& no_adjacent_custom(nb)
    &&& forall|i: int| 0 <= i < nb.len() ==> #[trigger] block_ok_in(nb, i)
}

/// Such blocks are clean.
pub proof fn lemma_clean_q(nb: Seq<BlockView>)
    requires
        clean_q(nb),
    ensures
        clean(nb),
{
    lemma_has_managed_single(BlockView::Custom(Seq::<char>::empty()));
    if nb.len() > 0 && nb[0] is Custom {
        assert(block_ok_in(nb, 0));
        assert(nb.take(0) =~= Seq::<BlockView>::empty());
        let t = nb.drop_first();
        if t.len() > 0 {
            assert(t[0] == nb[1]);
        }
        assert forall|i: int| 0 <= i < t.len() - 1 && (#[trigger] t[i]) is Custom implies t[i + 1] is Managed by {
            assert(t[i] == nb[i + 1]);
            assert(t[i + 1] == nb[i + 2]);
        }
        assert forall|i: int| 0 <= i < t.len() implies block_ok_after(#[trigger] t[i]) by {
            assert(t[i] == nb[i + 1]);
            assert(block_ok_in(nb, i + 1));
            if t[i] is Custom {
                assert(i > 0);
                assert(nb.take(i + 1)[1] == nb[1]);
            }
        }
    } else {
        assert forall|i: int| 0 <= i < nb.len() implies block_ok_after(#[trigger] nb[i]) by {
            assert(block_ok_in(nb, i));
            if nb[i] is Custom {
                assert(i > 0);
                assert(nb.take(i)[0] == nb[0]);
            }
        }
    }
}

/// Rendering blocks of the read kind gives blocks fit to read back, when
/// the rendered blocks keep their lines and no section holds its end line.
pub proof fn lemma_norm_clean_q(bs: Seq<BlockView>)
    requires
        raw_ok(bs),
        no_end_line_inside(norm(bs)),
        lines_safe(norm(bs)),
    ensures
        clean_q(norm(bs)),
    decreases bs.len(),
{
    if bs.len() > 0 {
        let d = bs.drop_last();
        let x = bs.last();
        let xx = norm(d);
        let g = has_managed(d);
        let nb = norm_block(x, g);
        let nn = norm(bs);
        assert(nn == xx + nb);
        assert forall|i: int| 0 <= i < d.len() - 1 && (#[trigger] d[i]) is Custom implies d[i + 1] is Managed by {
            assert(d[i] == bs[i]);
            assert(d[i + 1] == bs[i + 1]);
        }
        assert forall|i: int| 0 <= i < d.len() implies block_raw_ok(#[trigger] d[i]) by {
            assert(d[i] == bs[i]);
        }
        assert forall|i: int| 0 <= i < xx.len() && (#[trigger] xx[i]) is Managed implies !lines_spec(
            body_of(xx[i]->content),
        ).contains(end_line(xx[i]->name)) by {
            assert(nn[i] == xx[i]);
        }
        assert forall|i: int| 0 <= i < xx.len() implies line_safe(#[trigger] xx[i]) by {
            assert(nn[i] == xx[i]);
        }
        lemma_norm_clean_q(d);
        lemma_norm_has_managed(d, false);
        assert(block_raw_ok(bs[bs.len() - 1]));
        // The last rendered block of `d` is a section when `d` ends with one.
        assert(d.len() > 0 && d.last() is Managed ==> xx.len() > 0 && xx.last() is Managed) by {
            if d.len() > 0 && d.last() is Managed {
                assert(xx == norm(d.drop_last()) + norm_block(d.last(), has_managed(d.drop_last())));
            }
        }
        if x is Custom && d.len() > 0 {
            assert(bs[d.len() - 1] == d.last());
            assert(d.last() is Managed);
        }
        if x is Custom && d.len() == 0 {
            assert(xx.len() == 0);
        }
        assert forall|i: int| 0 <= i < nn.len() - 1 && (#[trigger] nn[i]) is Custom implies nn[i + 1] is Managed by {
            if i < xx.len() - 1 {
                assert(nn[i] == xx[i]);
                assert(nn[i + 1] == xx[i + 1]);
            } else {
                assert(i == xx.len() - 1);
                assert(nn[i] == xx.last());
                assert(nn[i + 1] == nb[0]);
            }
        }
        assert forall|i: int| 0 <= i < nn.len() implies #[trigger] block_ok_in(nn, i) by {
            if i < xx.len() {
                assert(nn[i] == xx[i]);
                assert(nn.take(i) =~= xx.take(i));
                assert(block_ok_in(xx, i));
            } else {
                assert(nn[i] == nb[0]);
                assert(nn.take(i) =~= xx);
                assert(line_safe(nn[i]));
                match x {
                    BlockView::Custom(c) => {
                        lemma_custom_normal(c, g);
                        lemma_trim_end_shape(c);
                        let t = trim_end_spec(c);
                        lemma_no_marker_prefix(c, t.len() as int);
                        if g {
                            lemma_strip_blank_lines(t);
                            let a = after_last_newline(t, ws_run_from(t, 0));
                            assert(line_start(t, a));
                            lemma_no_marker_suffix(t, a);
                        }
                    },
                    BlockView::Managed { name, content } => {
                        lemma_trim_idempotent(content);
                        assert(nn[i] is Managed);
                    },
                }
            }
        }
    }
}

/// Patching with the entries `es` replaces the block `b`, met after the
/// sections whose keys are `done`.
pub open spec fn replaced(b: BlockView, es: Seq<(Seq<char>, Seq<char>)>, done: Set<Seq<char>>) -> bool {
    match b {
        BlockView::Managed { name, .. } => !done.contains(key_of(name)) && entry_of(es, key_of(name)) is Some,
        BlockView::Custom(_) => false,
    }
}

/// The keys of the sections met, after the block `b`.
pub open spec fn next_done(b: BlockView, done: Set<Seq<char>>) -> Set<Seq<char>> {
    match b {
        BlockView::Managed { name, .. } => done.insert(key_of(name)),
        BlockView::Custom(_) => done,
    }
}

/// Two blocks are the same, or `y` is replaced by patching with `es` and `x`
/// is a section of the same name.
pub open spec fn agree_or_replaced(
    x: BlockView,
    y: BlockView,
    es: Seq<(Seq<char>, Seq<char>)>,
    done: Set<Seq<char>>,
) -> bool {
    x == y || (replaced(y, es, done) && x is Managed && y is Managed && x->name == y->name)
}

/// Two block sequences that are the same but for the contents of the
/// sections of `b` that patching with `es` replaces.
pub open spec fn same_but_replaced(
    a: Seq<BlockView>,
    b: Seq<BlockView>,
    es: Seq<(Seq<char>, Seq<char>)>,
    done: Set<Seq<char>>,
) -> bool
    decreases a.len(),
{
    if a.len() == 0 {
        b.len() == 0
    } else {
        &&& b.len() > 0
        &&& agree_or_replaced(a[0], b[0], es, done)
        &&& same_but_replaced(a.drop_first(), b.drop_first(), es, next_done(b[0], done))
    }
}

/// Block sequences that differ only in contents that patching replaces patch
/// to the same blocks.
pub proof fn lemma_same_patch_blocks(
    a: Seq<BlockView>,
    b: Seq<BlockView>,
    es: Seq<(Seq<char>, Seq<char>)>,
    done: Set<Seq<char>>,
)
    requires
        same_but_replaced(a, b, es, done),
    ensures
        patch_blocks(a, es, done) == patch_blocks(b, es, done),
    decreases a.len(),
{
    if a.len() > 0 {
        let d2 = next_done(b[0], done);
        assert(next_done(a[0], done) == d2);
        lemma_same_patch_blocks(a.drop_first(), b.drop_first(), es, d2);
        let pa = patch_blocks(a, es, done);
        let pb = patch_blocks(b, es, done);
        assert(pa == seq![pa[0]] + patch_blocks(a.drop_first(), es, d2));
        assert(pb == seq![pb[0]] + patch_blocks(b.drop_first(), es, d2));
        assert(pa[0] == pb[0]);
    }
}

/// Block sequences that differ only in contents that patching replaces have
/// the same keys, block by block.
pub proof fn lemma_same_keys(
    a: Seq<BlockView>,
    b: Seq<BlockView>,
    es: Seq<(Seq<char>, Seq<char>)>,
    done: Set<Seq<char>>,
)
    requires
        same_but_replaced(a, b, es, done),
    ensures
        a.len() == b.len(),
        forall|i: int| 0 <= i < a.len() ==> block_key(#[trigger] a[i]) == block_key(b[i]),
        managed_keys(a) == managed_keys(b),
    decreases a.len(),
{
    if a.len() > 0 {
        lemma_same_keys(a.drop_first(), b.drop_first(), es, next_done(b[0], done));
        assert forall|i: int| 0 <= i < a.len() implies block_key(#[trigger] a[i]) == block_key(b[i]) by {
            if i > 0 {
                assert(a[i] == a.drop_first()[i - 1]);
                assert(b[i] == b.drop_first()[i - 1]);
            }
        }
    }
    assert(managed_keys(a) =~= managed_keys(b)) by {
        assert forall|k: Seq<char>| managed_keys(a).contains(k) implies managed_keys(b).contains(k) by {
            let i = choose|i: int| 0 <= i < a.len() && block_key(a[i]) == Some(k);
            assert(block_key(b[i]) == Some(k));
        }
        assert forall|k: Seq<char>| managed_keys(b).contains(k) implies managed_keys(a).contains(k) by {
            let i = choose|i: int| 0 <= i < b.len() && block_key(b[i]) == Some(k);
            assert(block_key(a[i]) == Some(k));
        }
    }
}

/// Blocks with trimmed sections read back the same but for the contents of
/// the sections that patching replaces, when the others hold no carriage
/// return before a newline.
pub proof fn lemma_fix_same(nb: Seq<BlockView>, es: Seq<(Seq<char>, Seq<char>)>, done: Set<Seq<char>>)
    requires
        untouched_no_crlf(nb, es, done),
        forall|i: int|
            0 <= i < nb.len() && (#[trigger] nb[i]) is Managed ==> nb[i]->content == trim_spec(
                nb[i]->content,
            ),
    ensures
        same_but_replaced(fix(nb), nb, es, done),
    decreases nb.len(),
{
    if nb.len() > 0 {
        let x = nb[0];
        let d = nb.drop_first();
        assert(seq![x] + d =~= nb);
        lemma_fix_front(x, d);
        assert forall|i: int| 0 <= i < d.len() && (#[trigger] d[i]) is Managed implies d[i]->content
            == trim_spec(d[i]->content) by {
            assert(d[i] == nb[i + 1]);
        }
        lemma_fix_same(d, es, next_done(x, done));
        let f = fix(nb);
        assert(f[0] == fix_block(x));
        assert(f.drop_first() =~= fix(d));
        if x is Managed && !replaced(x, es, done) {
            lemma_body_read(x->content);
        }
    }
}

/// Trimmed sections without a carriage return before a newline, and custom
/// text, read back as they are.
pub proof fn lemma_fix_id(nb: Seq<BlockView>)
    requires
        forall|i: int|
            0 <= i < nb.len() && (#[trigger] nb[i]) is Managed ==> nb[i]->content == trim_spec(
                nb[i]->content,
            ) && !has_crlf(nb[i]->content),
    ensures
        fix(nb) == nb,
{
    assert forall|i: int| 0 <= i < nb.len() implies #[trigger] fix(nb)[i] == nb[i] by {
        if nb[i] is Managed {
            lemma_body_read(nb[i]->content);
        }
    }
    assert(fix(nb) =~= nb);
}

/// Running the tool a second time with the same templates leaves the file
/// exactly as the first run left it: serializing what parsing and patching
/// the output of a run gives yields that output again. This holds when the
/// sections of that output have names fit for marker lines and no line of
/// their own end line inside, and neither its custom text nor a section
/// that the templates do not replace holds a carriage return right before
/// a newline (reading drops that carriage return).
pub proof fn law_rerun_is_stable(s: Seq<char>, ts: Seq<(Seq<char>, Seq<char>)>)
    requires
        lines_safe(norm(patch_spec(parse_spec(s), ts))),
        no_end_line_inside(norm(patch_spec(parse_spec(s), ts))),
        untouched_no_crlf(norm(patch_spec(parse_spec(s), ts)), canonical(ts), Set::empty()),
    ensures
        serialize_spec(
            patch_spec(parse_spec(serialize_spec(patch_spec(parse_spec(s), ts))), ts),
        ) == serialize_spec(patch_spec(parse_spec(s), ts)),
{
    let es = canonical(ts);
    let r = patch_spec(parse_spec(s), ts);
    let nr = norm(r);
    lemma_parse_raw_ok(s);
    lemma_patch_raw_ok(parse_spec(s), ts);
    lemma_norm_clean_q(r);
    lemma_clean_q(nr);
    lemma_reparse(nr);
    lemma_serialize_norm(r);
    let p = parse_spec(serialize_spec(r));
    assert(norm(p) == fix(nr));
    assert forall|i: int| 0 <= i < nr.len() && (#[trigger] nr[i]) is Managed implies nr[i]->content
        == trim_spec(nr[i]->content) by {
        assert(block_ok_in(nr, i));
    }
    lemma_fix_same(nr, es, Set::empty());
    lemma_same_patch_blocks(fix(nr), nr, es, Set::empty());
    lemma_same_keys(fix(nr), nr, es, Set::empty());
    assert(patch_spec(fix(nr), ts) == patch_spec(nr, ts));
    let q = patch_spec(p, ts);
    lemma_serialize_norm(q);
    lemma_norm_patch(p, ts);
    lemma_norm_patch(r, ts);
    law_patch_idempotent(parse_spec(s), ts);
    assert(norm(q) == nr);
}

/// The sections of clean blocks are trimmed.
pub proof fn lemma_clean_managed_trimmed(nb: Seq<BlockView>)
    requires
        clean(nb),
    ensures
        forall|i: int|
            0 <= i < nb.len() && (#[trigger] nb[i]) is Managed ==> nb[i]->content == trim_spec(
                nb[i]->content,
            ),
{
    assert forall|i: int| 0 <= i < nb.len() && (#[trigger] nb[i]) is Managed implies nb[i]->content
        == trim_spec(nb[i]->content) by {
        if nb.len() > 0 && nb[0] is Custom {
            assert(i > 0);
            assert(nb.drop_first()[i - 1] == nb[i]);
            assert(block_ok_after(nb.drop_first()[i - 1]));
        } else {
            assert(block_ok_after(nb[i]));
        }
    }
}

/// Serializing clean blocks in rendered form whose sections hold no
/// carriage return before a newline, parsing the text and serializing again
/// gives the same text.
pub proof fn law_serialize_parse_stable(nb: Seq<BlockView>)
    requires
        clean(nb),
        forall|i: int| 0 <= i < nb.len() && (#[trigger] nb[i]) is Managed ==> !has_crlf(nb[i]->content),
    ensures
        serialize_spec(parse_spec(serialize_spec(nb))) == serialize_spec(nb),
{
    lemma_reparse(nb);
    lemma_clean_managed_trimmed(nb);
    lemma_fix_id(nb);
    lemma_serialize_norm(parse_spec(serialize_spec(nb)));
}

/// A rendered section reads back as one section with its name and its
/// trimmed content followed by a newline (or nothing when that content is
/// empty), when its name holds no newline and does not end with a carriage
/// return, its trimmed content holds no carriage return right before a
/// newline, and no line of that content is its end line.
pub proof fn law_managed_roundtrip(name: Seq<char>, content: Seq<char>, after: bool)
    requires
        name_clean(name),
        !has_crlf(trim_spec(content)),
        !lines_spec(body_of(trim_spec(content))).contains(end_line(name)),
    ensures
        render_spec(BlockView::Managed { name: name, content: content }, after) is Some,
        parse_spec(render_spec(BlockView::Managed { name: name, content: content }, after)->0) == seq![
            BlockView::Managed { name: name, content: body_of(trim_spec(content)) },
        ],
{
    let c = trim_spec(content);
    lemma_trim_idempotent(content);
    lemma_managed_read(name, c);
    lemma_body_read(c);
    let x = lines_spec(body_of(c));
    let e = Seq::<char>::empty();
    lemma_parse_managed(name, x, Seq::<Seq<char>>::empty(), e);
    assert(seq![start_line(name)] + x + seq![end_line(name)] + Seq::<Seq<char>>::empty() =~= seq![
        start_line(name),
    ] + x + seq![end_line(name)]);
    assert(parse_from(Seq::<Seq<char>>::empty(), 0, e) =~= Seq::<BlockView>::empty());
    assert(flush(e) =~= Seq::<BlockView>::empty());
    assert(Seq::<BlockView>::empty() + seq![BlockView::Managed { name: name, content: join_lines(x) }]
        + Seq::<BlockView>::empty() =~= seq![BlockView::Managed { name: name, content: join_lines(x) }]);
}

/// Lines of text that does not end with a newline are the lines of the text
/// with one added.
pub proof fn lemma_lines_push_newline(s: Seq<char>, cur: Seq<char>)
    requires
        s.len() == 0 ==> cur.len() > 0,
        s.len() > 0 ==> s.last() != '\n',
        (cur + s).last() != '\r',
    ensures
        split_lines(s, cur) == split_lines(s.push('\n'), cur),
    decreases s.len(),
{
    let e = Seq::<char>::empty();
    if s.len() == 0 {
        assert(cur + s =~= cur);
        assert(s.push('\n') =~= seq!['\n']);
        assert(seq!['\n'].drop_first() =~= e);
        assert(strip_cr(cur) == cur);
        assert(split_lines(e, e) =~= Seq::<Seq<char>>::empty());
        assert(split_lines(seq!['\n'], cur) =~= seq![cur]);
        assert(split_lines(s, cur) =~= seq![cur]);
    } else {
        let d = s.drop_first();
        assert(s.push('\n').drop_first() =~= d.push('\n'));
        assert(s.push('\n')[0] == s[0]);
        assert((cur + s).last() == s.last());
        if s[0] == '\n' {
            assert(d.len() > 0 && d.last() == s.last());
            assert((e + d).last() == d.last());
            lemma_lines_push_newline(d, e);
        } else {
            let c2 = cur.push(s[0]);
            assert(c2 + d =~= cur + s);
            lemma_lines_push_newline(d, c2);
        }
    }
}

/// Text of custom rules only, with no carriage return right before a
/// newline or at its end, reads and writes back as the text without its
/// trailing whitespace, followed by a newline (or nothing when only
/// whitespace is left).
pub proof fn law_custom_roundtrip(c: Seq<char>)
    requires
        !has_crlf(c.push('\n')),
        forall|k: int| 0 <= k < lines_spec(c).len() ==> !has_prefix(#[trigger] lines_spec(c)[k], START_MARKER_PREFIX@),
    ensures
        serialize_spec(parse_spec(c)) == (if trim_end_spec(c).len() == 0 {
            Seq::<char>::empty()
        } else {
            trim_end_spec(c).push('\n')
        }),
{
    lemma_newline_is_ws();
    let e = Seq::<char>::empty();
    let ls = lines_spec(c);
    lemma_parse_custom_lines(ls, Seq::<Seq<char>>::empty(), e);
    assert(ls + Seq::<Seq<char>>::empty() =~= ls);
    let j = join_lines(ls);
    assert(e + j =~= j);
    assert(parse_spec(c) == flush(j));
    // The joined lines are the text, with a newline added when it lacks one.
    assert(trim_end_spec(j) == trim_end_spec(c)) by {
        if c.len() == 0 {
            assert(ls =~= Seq::<Seq<char>>::empty());
            assert(j =~= c);
        } else {
            let cc = if c.last() == '\n' {
                c
            } else {
                c.push('\n')
            };
            if c.last() != '\n' {
                assert(e + c =~= c);
                assert(c.push('\n')[(c.len() - 1) + 1] == '\n');
                assert(c.push('\n')[c.len() - 1] == c.last());
                lemma_lines_push_newline(c, e);
            }
            assert(!has_crlf(e + cc)) by {
                assert(e + cc =~= cc);
                if has_crlf(cc) {
                    let i = choose|i: int| 0 <= i < cc.len() - 1 && cc[i] == '\r' && #[trigger] cc[i + 1] == '\n';
                    if c.last() == '\n' {
                        assert(c.push('\n')[i] == '\r');
                        assert(c.push('\n')[i + 1] == '\n');
                    }
                }
            }
            lemma_join_split_lines(cc, e);
            assert(e + cc =~= cc);
            if c.last() != '\n' {
                assert(cc.drop_last() =~= c);
                assert(cc.last() == '\n');
            }
        }
    }
    let t = trim_end_spec(c);
    if j.len() == 0 {
        assert(flush(j) =~= Seq::<BlockView>::empty());
        assert(rendered(flush(j)) =~= Seq::<Seq<char>>::empty());
        assert(t =~= e);
    } else {
        let b = BlockView::Custom(j);
        assert(flush(j) == seq![b]);
        lemma_rendered_front(b, Seq::<BlockView>::empty(), false);
        assert(seq![b] + Seq::<BlockView>::empty() =~= seq![b]);
        assert(rendered_from(Seq::<BlockView>::empty(), false) =~= Seq::<Seq<char>>::empty());
        if t.len() == 0 {
            assert(rendered(seq![b]) =~= Seq::<Seq<char>>::empty());
        } else {
            assert(rendered(seq![b]) =~= seq![t.push('\n')]);
        }
    }
}

} // verus!
