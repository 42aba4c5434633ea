//! Properties of patching that hold for every block sequence and every list
//! of templates: what patching keeps, what it changes, and that patching
//! twice with the same templates changes nothing more.

use vstd::prelude::*;

use crate::text::{
    lemma_lines_single, lemma_split_lines_append, lemma_split_lines_line,
    has_crlf, has_prefix, is_white_space, lines_spec, split_lines, strip_cr, trim_end_spec, trim_spec,
    trim_start_spec,
};
use crate::patch::{
    find_line, flush, join_lines, parse_from, lemma_find_line_bounds, end_line, start_line,
    rendered, render_spec, serialize_spec, join_newline, parse_spec,
    block_key, canonical, entry_of, key_of, lemma_canonical, managed_keys, managed_template,
    patch_blocks, patch_spec, unmatched, BlockView, key_occurs,
};

verus! {

/// Some block before index `i` has the key `k`.
pub open spec fn key_before(bs: Seq<BlockView>, i: int, k: Seq<char>) -> bool {
    exists|j: int| 0 <= j < i && block_key(#[trigger] bs[j]) == Some(k)
}

/// The block at `i` after patching: a managed block whose key has an entry,
/// and is neither in `done` nor the key of an earlier block, becomes that
/// entry; every other block stays as it is.
pub open spec fn patched_at(
    bs: Seq<BlockView>,
    es: Seq<(Seq<char>, Seq<char>)>,
    done: Set<Seq<char>>,
    i: int,
) -> BlockView {
    match bs[i] {
        BlockView::Managed { name, .. } => {
            let k = key_of(name);
            if !done.contains(k) && !key_before(bs, i, k) && entry_of(es, k) is Some {
                managed_template(entry_of(es, k)->0)
            } else {
                bs[i]
            }
        },
        BlockView::Custom(_) => bs[i],
    }
}

/// The entry found for a key has that key and is one of the entries.
pub proof fn lemma_entry_of_found(es: Seq<(Seq<char>, Seq<char>)>, k: Seq<char>)
    ensures
        entry_of(es, k) matches Some(e) ==> key_of(e.0) == k && es.contains(e),
        entry_of(es, k) is None ==> forall|j: int| 0 <= j < es.len() ==> key_of(#[trigger] es[j].0) != k,
    decreases es.len(),
{
    if es.len() > 0 && key_of(es[0].0) != k {
        let d = es.drop_first();
        lemma_entry_of_found(d, k);
        if entry_of(d, k) is Some {
            let j = choose|j: int| 0 <= j < d.len() && d[j] == entry_of(d, k)->0;
            assert(es[j + 1] == d[j]);
        } else {
            assert forall|j: int| 0 <= j < es.len() implies key_of(#[trigger] es[j].0) != k by {
                if j > 0 {
                    assert(es[j] == d[j - 1]);
                }
            }
        }
    } else if es.len() > 0 {
        assert(es[0] == es[0]);
    }
}

/// When the entries have distinct keys, the entry of the key of an entry is
/// that entry.
pub proof fn lemma_entry_of_distinct(es: Seq<(Seq<char>, Seq<char>)>, j: int)
    requires
        0 <= j < es.len(),
        forall|a: int, b: int|
            0 <= a < b < es.len() ==> key_of(#[trigger] es[a].0) != key_of(#[trigger] es[b].0),
    ensures
        entry_of(es, key_of(es[j].0)) == Some(es[j]),
    decreases j,
{
    if j > 0 {
        let d = es.drop_first();
        assert(key_of(es[0].0) != key_of(es[j].0));
        assert(d[j - 1] == es[j]);
        assert forall|a: int, b: int| 0 <= a < b < d.len() implies key_of(
            #[trigger] d[a].0,
        ) != key_of(#[trigger] d[b].0) by {
            assert(d[a] == es[a + 1]);
            assert(d[b] == es[b + 1]);
        }
        lemma_entry_of_distinct(d, j - 1);
    }
}

/// Patching keeps the number of blocks, and each block is patched as
/// `patched_at` says.
pub proof fn lemma_patch_blocks_elem(
    bs: Seq<BlockView>,
    es: Seq<(Seq<char>, Seq<char>)>,
    done: Set<Seq<char>>,
)
    ensures
        patch_blocks(bs, es, done).len() == bs.len(),
        forall|i: int|
            0 <= i < bs.len() ==> #[trigger] patch_blocks(bs, es, done)[i] == patched_at(
                bs,
                es,
                done,
                i,
            ),
    decreases bs.len(),
{
    if bs.len() > 0 {
        let d = bs.drop_first();
        let done2 = match bs[0] {
            BlockView::Managed { name, .. } => done.insert(key_of(name)),
            BlockView::Custom(_) => done,
        };
        lemma_patch_blocks_elem(d, es, done2);
        let p = patch_blocks(bs, es, done);
        assert forall|i: int| 0 <= i < bs.len() implies #[trigger] p[i] == patched_at(
            bs,
            es,
            done,
            i,
        ) by {
            if i == 0 {
                assert(!key_before(bs, 0, key_of(bs[0]->name)));
            } else {
                assert(p[i] == patch_blocks(d, es, done2)[i - 1]);
                assert(d[i - 1] == bs[i]);
                if let BlockView::Managed { name, .. } = bs[i] {
                    let k = key_of(name);
                    if key_before(d, i - 1, k) {
                        let j = choose|j: int| 0 <= j < i - 1 && block_key(#[trigger] d[j]) == Some(k);
                        assert(bs[j + 1] == d[j]);
                        assert(key_before(bs, i, k));
                    }
                    if key_before(bs, i, k) {
                        let j = choose|j: int| 0 <= j < i && block_key(#[trigger] bs[j]) == Some(k);
                        if j > 0 {
                            assert(d[j - 1] == bs[j]);
                            assert(key_before(d, i - 1, k));
                        } else {
                            assert(done2.contains(k));
                        }
                    }
                }
            }
        }
    }
}

/// Patching keeps the key of every block.
pub proof fn lemma_patch_blocks_keys(
    bs: Seq<BlockView>,
    es: Seq<(Seq<char>, Seq<char>)>,
    done: Set<Seq<char>>,
)
    ensures
        patch_blocks(bs, es, done).len() == bs.len(),
        forall|i: int|
            0 <= i < bs.len() ==> block_key(#[trigger] patch_blocks(bs, es, done)[i])
                == block_key(bs[i]),
        forall|i: int|
            0 <= i < bs.len() ==> ((#[trigger] patch_blocks(bs, es, done)[i]) is Custom <==> bs[i] is Custom),
        forall|i: int|
            0 <= i < bs.len() && bs[i] is Custom ==> #[trigger] patch_blocks(bs, es, done)[i]
                == bs[i],
{
    lemma_patch_blocks_elem(bs, es, done);
    assert forall|i: int| 0 <= i < bs.len() implies block_key(
        #[trigger] patch_blocks(bs, es, done)[i],
    ) == block_key(bs[i]) by {
        if let BlockView::Managed { name, .. } = bs[i] {
            lemma_entry_of_found(es, key_of(name));
        }
    }
}

/// Every block that `unmatched` yields is a managed template of an entry
/// whose key is not in `keys`; and every such entry yields one.
pub proof fn lemma_unmatched(es: Seq<(Seq<char>, Seq<char>)>, keys: Set<Seq<char>>)
    ensures
        forall|a: int|
            0 <= a < unmatched(es, keys).len() ==> exists|j: int|
                0 <= j < es.len() && !keys.contains(key_of(es[j].0)) && #[trigger] unmatched(
                    es,
                    keys,
                )[a] == managed_template(es[j]),
        forall|j: int|
            0 <= j < es.len() && !keys.contains(key_of(#[trigger] es[j].0)) ==> unmatched(
                es,
                keys,
            ).contains(managed_template(es[j])),
        (forall|j: int| 0 <= j < es.len() ==> keys.contains(key_of(#[trigger] es[j].0)))
            ==> unmatched(es, keys).len() == 0,
    decreases es.len(),
{
    if es.len() > 0 {
        let d = es.drop_last();
        lemma_unmatched(d, keys);
        let u = unmatched(es, keys);
        let ud = unmatched(d, keys);
        assert forall|a: int| 0 <= a < u.len() implies exists|j: int|
            0 <= j < es.len() && !keys.contains(key_of(es[j].0)) && #[trigger] u[a]
                == managed_template(es[j]) by {
            if a < ud.len() {
                assert(u[a] == ud[a]);
                let j = choose|j: int|
                    0 <= j < d.len() && !keys.contains(key_of(d[j].0)) && ud[a] == managed_template(
                        d[j],
                    );
                assert(es[j] == d[j]);
            } else {
                assert(u[a] == managed_template(es[es.len() - 1]));
            }
        }
        assert forall|j: int| 0 <= j < es.len() && !keys.contains(key_of(#[trigger] es[j].0)) implies u.contains(
            managed_template(es[j]),
        ) by {
            if j < d.len() {
                assert(d[j] == es[j]);
                let a = choose|a: int| 0 <= a < ud.len() && ud[a] == managed_template(d[j]);
                assert(u[a] == ud[a]);
            } else {
                assert(u[u.len() - 1] == managed_template(es[j]));
            }
        }
        if forall|j: int| 0 <= j < es.len() ==> keys.contains(key_of(#[trigger] es[j].0)) {
            assert forall|j: int| 0 <= j < d.len() implies keys.contains(key_of(#[trigger] d[j].0)) by {
                assert(d[j] == es[j]);
            }
            assert(keys.contains(key_of(es[es.len() - 1].0)));
        }
    }
}

/// Patching twice with the same templates gives what patching once gives.
pub proof fn law_patch_idempotent(bs: Seq<BlockView>, ts: Seq<(Seq<char>, Seq<char>)>)
    ensures
        patch_spec(patch_spec(bs, ts), ts) == patch_spec(bs, ts),
{
    let es = canonical(ts);
    lemma_canonical(ts);
    let pb = patch_blocks(bs, es, Set::empty());
    let u = unmatched(es, managed_keys(bs));
    let r = pb + u;
    lemma_patch_blocks_keys(bs, es, Set::empty());
    lemma_patch_blocks_elem(bs, es, Set::empty());
    lemma_unmatched(es, managed_keys(bs));
    lemma_patch_blocks_elem(r, es, Set::empty());
    let r2 = patch_blocks(r, es, Set::empty());
    assert forall|i: int| 0 <= i < r.len() implies #[trigger] r2[i] == r[i] by {
        if let BlockView::Managed { name, .. } = r[i] {
            let k = key_of(name);
            if !key_before(r, i, k) && entry_of(es, k) is Some {
                lemma_entry_of_found(es, k);
                let e = entry_of(es, k)->0;
                if i < bs.len() {
                    assert(r[i] == pb[i]);
                    assert(block_key(bs[i]) == Some(k));
                    if key_before(bs, i, k) {
                        let j = choose|j: int| 0 <= j < i && block_key(#[trigger] bs[j]) == Some(k);
                        assert(r[j] == pb[j]);
                        assert(block_key(r[j]) == Some(k));
                        assert(key_before(r, i, k));
                    }
                    assert(pb[i] == patched_at(bs, es, Set::empty(), i));
                } else {
                    let a = i - bs.len();
                    assert(r[i] == u[a]);
                    let j = choose|j: int|
                        0 <= j < es.len() && !managed_keys(bs).contains(key_of(es[j].0))
                            && #[trigger] u[a] == managed_template(es[j]);
                    assert(key_of(es[j].0) == k);
                    lemma_entry_of_distinct(es, j);
                }
            }
        }
    }
    assert(r2 =~= r);
    assert forall|j: int| 0 <= j < es.len() implies managed_keys(r).contains(
        key_of(#[trigger] es[j].0),
    ) by {
        let k = key_of(es[j].0);
        if managed_keys(bs).contains(k) {
            let i = choose|i: int| 0 <= i < bs.len() && block_key(bs[i]) == Some(k);
            assert(r[i] == pb[i]);
        } else {
            let a = choose|a: int| 0 <= a < u.len() && u[a] == managed_template(es[j]);
            assert(r[bs.len() + a] == u[a]);
            assert(block_key(r[bs.len() + a]) == Some(k));
        }
    }
    lemma_unmatched(es, managed_keys(r));
    assert(unmatched(es, managed_keys(r)).len() == 0);
    assert(patch_spec(r, ts) =~= r);
}

/// Trimming the end leaves nothing, or text that ends in a non-whitespace
/// character and is a prefix of the text.
pub proof fn lemma_trim_end_shape(s: Seq<char>)
    ensures
        trim_end_spec(s).len() <= s.len(),
        trim_end_spec(s) == s.take(trim_end_spec(s).len() as int),
        trim_end_spec(s).len() == 0 || !is_white_space(trim_end_spec(s).last()),
        forall|k: int| trim_end_spec(s).len() <= k < s.len() ==> is_white_space(#[trigger] s[k]),
    decreases s.len(),
{
    if s.len() > 0 && is_white_space(s.last()) {
        let d = s.drop_last();
        lemma_trim_end_shape(d);
        let t = trim_end_spec(d);
        assert(d.take(t.len() as int) =~= s.take(t.len() as int));
        assert forall|k: int| t.len() <= k < s.len() implies is_white_space(#[trigger] s[k]) by {
            if k < d.len() {
                assert(d[k] == s[k]);
            }
        }
    } else {
        assert(s.take(s.len() as int) =~= s);
    }
}

/// Trimming the start leaves nothing, or text that starts with a
/// non-whitespace character and is a suffix of the text.
pub proof fn lemma_trim_start_shape(s: Seq<char>)
    ensures
        trim_start_spec(s).len() <= s.len(),
        trim_start_spec(s) == s.skip(s.len() - trim_start_spec(s).len()),
        trim_start_spec(s).len() == 0 || !is_white_space(trim_start_spec(s)[0]),
    decreases s.len(),
{
    if s.len() > 0 && is_white_space(s[0]) {
        let d = s.drop_first();
        lemma_trim_start_shape(d);
        let t = trim_start_spec(d);
        assert(d.skip(d.len() - t.len()) =~= s.skip(s.len() - t.len()));
    } else {
        assert(s.skip(0) =~= s);
    }
}

/// Trimming the end twice is trimming it once.
pub proof fn lemma_trim_end_idempotent(s: Seq<char>)
    ensures
        trim_end_spec(trim_end_spec(s)) == trim_end_spec(s),
{
    lemma_trim_end_shape(s);
}

/// Trimming twice is trimming once.
pub proof fn lemma_trim_idempotent(s: Seq<char>)
    ensures
        trim_spec(trim_spec(s)) == trim_spec(s),
{
    let x = trim_end_spec(s);
    lemma_trim_end_shape(s);
    lemma_trim_start_shape(x);
    let y = trim_start_spec(x);
    if y.len() > 0 {
        assert(y.last() == x.last());
    }
    assert(trim_end_spec(y) == y);
    lemma_trim_start_shape(y);
    assert(trim_start_spec(y) == y);
}

pub proof fn lemma_join_lines_front(x: Seq<char>, rest: Seq<Seq<char>>)
    ensures
        join_lines(seq![x] + rest) == x.push('\n') + join_lines(rest),
    decreases rest.len(),
{
    if rest.len() == 0 {
        assert(seq![x] + rest =~= seq![x]);
        assert(seq![x].drop_last() =~= Seq::<Seq<char>>::empty());
        assert(x.push('\n') + join_lines(rest) =~= x.push('\n'));
        assert(join_lines(Seq::<Seq<char>>::empty()) + x.push('\n') =~= x.push('\n'));
    } else {
        lemma_join_lines_front(x, rest.drop_last());
        assert((seq![x] + rest).drop_last() =~= seq![x] + rest.drop_last());
        assert((seq![x] + rest).last() == rest.last());
        assert(x.push('\n') + join_lines(rest.drop_last()) + rest.last().push('\n') =~= x.push('\n')
            + (join_lines(rest.drop_last()) + rest.last().push('\n')));
    }
}

pub proof fn lemma_join_lines_concat(a: Seq<Seq<char>>, b: Seq<Seq<char>>)
    ensures
        join_lines(a + b) == join_lines(a) + join_lines(b),
    decreases b.len(),
{
    if b.len() == 0 {
        assert(a + b =~= a);
        assert(join_lines(a) + join_lines(b) =~= join_lines(a));
    } else {
        lemma_join_lines_concat(a, b.drop_last());
        assert((a + b).drop_last() =~= a + b.drop_last());
        assert(join_lines(a) + join_lines(b.drop_last()) + b.last().push('\n') =~= join_lines(a) + (
        join_lines(b.drop_last()) + b.last().push('\n')));
    }
}

/// Splitting text into lines and joining them back gives the text, when it
/// ends with a newline and holds no carriage return right before a newline.
pub proof fn lemma_join_split_lines(a: Seq<char>, cur: Seq<char>)
    requires
        a.len() > 0,
        a.last() == '\n',
        !has_crlf(cur + a),
    ensures
        join_lines(split_lines(a, cur)) == cur + a,
    decreases a.len(),
{
    let ca = cur + a;
    if a[0] == '\n' {
        if cur.len() > 0 {
            assert(ca[cur.len() - 1] == cur.last());
            assert(ca[cur.len() as int] == '\n');
            if cur.last() == '\r' {
                assert(ca[(cur.len() - 1) + 1] == '\n');
                assert(has_crlf(ca));
            }
        }
        assert(strip_cr(cur) == cur);
        let d = a.drop_first();
        lemma_join_lines_front(cur, split_lines(d, seq![]));
        if d.len() == 0 {
            assert(split_lines(d, seq![]) =~= Seq::<Seq<char>>::empty());
            assert(cur.push('\n') =~= cur + a);
        } else {
            assert(!has_crlf(Seq::<char>::empty() + d)) by {
                assert(Seq::<char>::empty() + d =~= d);
                if has_crlf(d) {
                    let i = choose|i: int| 0 <= i < d.len() - 1 && d[i] == '\r' && #[trigger] d[i + 1] == '\n';
                    assert(ca[cur.len() + 1 + i] == d[i]);
                    assert(ca[cur.len() + 1 + i + 1] == d[i + 1]);
                }
            }
            lemma_join_split_lines(d, seq![]);
            assert(Seq::<char>::empty() + d =~= d);
            assert(cur.push('\n') + d =~= cur + a);
        }
    } else {
        let d = a.drop_first();
        assert(cur.push(a[0]) + d =~= cur + a);
        lemma_join_split_lines(d, cur.push(a[0]));
    }
}

/// Lines before `j` differ from `em` and the line at `j` equals it: the first
/// line at or after `k` equal to `em` is at `j`.
pub proof fn lemma_find_line_at(ls: Seq<Seq<char>>, k: int, em: Seq<char>, j: int)
    requires
        0 <= k <= j <= ls.len(),
        forall|m: int| k <= m < j ==> ls[m] != em,
        j == ls.len() || ls[j] == em,
    ensures
        find_line(ls, k, em) == j,
    decreases j - k,
{
    if k < j {
        lemma_find_line_at(ls, k + 1, em, j);
    }
}

/// Searching in a suffix finds the same line.
pub proof fn lemma_find_line_shift(ls: Seq<Seq<char>>, i: int, k: int, em: Seq<char>)
    requires
        0 <= i <= k <= ls.len(),
    ensures
        find_line(ls, k, em) == find_line(ls.skip(i), k - i, em) + i,
    decreases ls.len() - k,
{
    let t = ls.skip(i);
    if k < ls.len() {
        assert(t[k - i] == ls[k]);
        if ls[k] != em {
            lemma_find_line_shift(ls, i, k + 1, em);
        }
    }
}

/// Parsing from line `i` is parsing the lines from `i` on.
pub proof fn lemma_parse_shift(ls: Seq<Seq<char>>, i: int, buf: Seq<char>)
    requires
        0 <= i <= ls.len(),
    ensures
        parse_from(ls, i, buf) == parse_from(ls.skip(i), 0, buf),
    decreases ls.len() - i,
{
    let t = ls.skip(i);
    if i < ls.len() {
        assert(t[0] == ls[i]);
        if has_prefix(ls[i], crate::defs::START_MARKER_PREFIX@) {
            let name = ls[i].skip(crate::defs::START_MARKER_PREFIX@.len() as int);
            let em = end_line(name);
            lemma_find_line_bounds(ls, i + 1, em);
            lemma_find_line_shift(ls, i, i + 1, em);
            let j = find_line(ls, i + 1, em);
            let jt = find_line(t, 1, em);
            assert(jt == j - i);
            assert(t.subrange(1, jt) =~= ls.subrange(i + 1, j));
            lemma_find_line_bounds(t, 1, em);
            if j < ls.len() {
                lemma_parse_shift(ls, j + 1, seq![]);
                lemma_parse_shift(t, jt + 1, seq![]);
                assert(t.skip(jt + 1) =~= ls.skip(j + 1));
            }
            let blk = BlockView::Managed { name: name, content: join_lines(ls.subrange(i + 1, j)) };
            assert(parse_from(ls, i, buf) == flush(buf) + seq![blk] + parse_from(ls, j + 1, seq![]));
            assert(parse_from(t, 0, buf) == flush(buf) + seq![blk] + parse_from(t, jt + 1, seq![]));
        } else {
            lemma_parse_shift(ls, i + 1, buf + ls[i].push('\n'));
            lemma_parse_shift(t, 1, buf + ls[i].push('\n'));
            assert(t.skip(1) =~= ls.skip(i + 1));
            assert(parse_from(t, 0, buf) == parse_from(t, 1, buf + ls[i].push('\n')));
        }
    } else {
        assert(t.len() == 0);
    }
}

/// A line that does not open a managed section is custom text.
pub proof fn lemma_parse_custom_line(l: Seq<char>, r: Seq<Seq<char>>, buf: Seq<char>)
    requires
        !has_prefix(l, crate::defs::START_MARKER_PREFIX@),
    ensures
        parse_from(seq![l] + r, 0, buf) == parse_from(r, 0, buf + l.push('\n')),
{
    let ls = seq![l] + r;
    assert(ls[0] == l);
    lemma_parse_shift(ls, 1, buf + l.push('\n'));
    assert(ls.skip(1) =~= r);
}

/// Lines none of which opens a managed section are custom text.
pub proof fn lemma_parse_custom_lines(x: Seq<Seq<char>>, r: Seq<Seq<char>>, buf: Seq<char>)
    requires
        forall|k: int| 0 <= k < x.len() ==> !has_prefix(#[trigger] x[k], crate::defs::START_MARKER_PREFIX@),
    ensures
        parse_from(x + r, 0, buf) == parse_from(r, 0, buf + join_lines(x)),
    decreases x.len(),
{
    if x.len() == 0 {
        assert(x + r =~= r);
        assert(buf + join_lines(x) =~= buf);
    } else {
        let d = x.drop_first();
        assert(x + r =~= seq![x[0]] + (d + r));
        lemma_parse_custom_line(x[0], d + r, buf);
        assert forall|k: int| 0 <= k < d.len() implies !has_prefix(#[trigger] d[k], crate::defs::START_MARKER_PREFIX@) by {
            assert(d[k] == x[k + 1]);
        }
        lemma_parse_custom_lines(d, r, buf + x[0].push('\n'));
        assert(x =~= seq![x[0]] + d);
        lemma_join_lines_front(x[0], d);
        assert(buf + x[0].push('\n') + join_lines(d) =~= buf + join_lines(x));
    }
}

/// A start line, lines none of which is the matching end line, and the end
/// line form a managed section.
pub proof fn lemma_parse_managed(
    n: Seq<char>,
    x: Seq<Seq<char>>,
    r: Seq<Seq<char>>,
    buf: Seq<char>,
)
    requires
        forall|k: int| 0 <= k < x.len() ==> #[trigger] x[k] != end_line(n),
    ensures
        parse_from(seq![start_line(n)] + x + seq![end_line(n)] + r, 0, buf) == flush(buf) + seq![
            BlockView::Managed { name: n, content: join_lines(x) },
        ] + parse_from(r, 0, seq![]),
{
    let p = crate::defs::START_MARKER_PREFIX@;
    let ls = seq![start_line(n)] + x + seq![end_line(n)] + r;
    assert(ls[0] == start_line(n));
    assert(start_line(n).take(p.len() as int) =~= p);
    assert(start_line(n).skip(p.len() as int) =~= n);
    let em = end_line(n);
    assert forall|m: int| 1 <= m < x.len() + 1 implies ls[m] != em by {
        assert(ls[m] == x[m - 1]);
    }
    let xl = x.len() as int;
    assert(ls[xl + 1] == em);
    lemma_find_line_at(ls, 1, em, xl + 1);
    assert(ls.subrange(1, xl + 1) =~= x);
    lemma_parse_shift(ls, xl + 2, seq![]);
    assert(ls.skip(xl + 2) =~= r);
}

pub proof fn lemma_newline_ws()
    ensures
        is_white_space('\n'),
{
    assert('\n' as u32 == 10);
}

/// Facts about the marker prefixes.
pub proof fn lemma_marker_facts()
    ensures
        crate::defs::START_MARKER_PREFIX@.len() > 0,
        !crate::defs::START_MARKER_PREFIX@.contains('\n'),
        crate::defs::START_MARKER_PREFIX@.last() != '\r',
        crate::defs::END_MARKER_PREFIX@.len() > 0,
        !crate::defs::END_MARKER_PREFIX@.contains('\n'),
        crate::defs::END_MARKER_PREFIX@.last() != '\r',
{
    reveal_strlit("# git-ignore-start: ");
    reveal_strlit("# git-ignore-end: ");
}

/// A name fit for a marker line: it holds no newline and does not end with a
/// carriage return.
pub open spec fn name_clean(n: Seq<char>) -> bool {
    !n.contains('\n') && (n.len() == 0 || n.last() != '\r')
}

/// The text that a managed content renders to between the marker lines.
pub open spec fn body_of(c: Seq<char>) -> Seq<char> {
    if c.len() == 0 {
        seq![]
    } else {
        c.push('\n')
    }
}

/// A managed block in rendered form that parses back with its name and its
/// lines: its name is fit for a marker line and no line of its content is its
/// end line. (A carriage return before a newline in its content is dropped
/// when it is read back.)
pub open spec fn managed_loose(b: BlockView) -> bool {
    match b {
        BlockView::Managed { name, content } => {
            &&& name_clean(name)
            &&& content == trim_spec(content)
            &&& !lines_spec(body_of(content)).contains(end_line(name))
        },
        BlockView::Custom(_) => false,
    }
}

pub proof fn lemma_trim_shape(s: Seq<char>)
    ensures
        trim_spec(s).len() == 0 || (!is_white_space(trim_spec(s)[0]) && !is_white_space(
            trim_spec(s).last(),
        )),
{
    let x = trim_end_spec(s);
    lemma_trim_end_shape(s);
    lemma_trim_start_shape(x);
    let y = trim_start_spec(x);
    if y.len() > 0 {
        assert(y.last() == x.last());
    }
}

/// A trimmed content followed by a newline trims back to itself.
pub proof fn lemma_trim_body(c: Seq<char>)
    requires
        c == trim_spec(c),
    ensures
        trim_spec(body_of(c)) == c,
{
    lemma_trim_shape(c);
    if c.len() > 0 {
        let b = c.push('\n');
        lemma_newline_ws();
        assert(b.drop_last() =~= c);
        assert(trim_end_spec(b) == trim_end_spec(c));
        assert(trim_end_spec(c) == c);
        assert(trim_start_spec(c) == c);
    } else {
        assert(body_of(c) =~= c);
    }
}

pub proof fn lemma_join_newline_front(x: Seq<char>, rest: Seq<Seq<char>>)
    requires
        rest.len() > 0,
    ensures
        join_newline(seq![x] + rest) == x.push('\n') + join_newline(rest),
    decreases rest.len(),
{
    let a = seq![x] + rest;
    assert(a.last() == rest.last());
    if rest.len() == 1 {
        assert(a.drop_last() =~= seq![x]);
        assert(join_newline(seq![x]) == x);
        assert(join_newline(rest) == rest[0]);
    } else {
        lemma_join_newline_front(x, rest.drop_last());
        assert(a.drop_last() =~= seq![x] + rest.drop_last());
        assert(x.push('\n') + join_newline(rest.drop_last()).push('\n') + rest.last() =~= x.push('\n')
            + (join_newline(rest.drop_last()).push('\n') + rest.last()));
    }
}

/// The lines of a rendered managed block.
pub proof fn lemma_lines_managed(n: Seq<char>, c: Seq<char>)
    requires
        managed_loose(BlockView::Managed { name: n, content: c }),
    ensures
        render_spec(BlockView::Managed { name: n, content: c }, false) matches Some(r) && lines_spec(r)
            == seq![start_line(n)] + lines_spec(body_of(c)) + seq![end_line(n)],
{
    lemma_marker_facts();
    let p = crate::defs::START_MARKER_PREFIX@;
    let q = crate::defs::END_MARKER_PREFIX@;
    let sl = start_line(n);
    let el = end_line(n);
    assert(!sl.contains('\n')) by {
        if sl.contains('\n') {
            let i = choose|i: int| 0 <= i < sl.len() && sl[i] == '\n';
            if i < p.len() {
                assert(p[i] == '\n');
            } else {
                assert(n[i - p.len()] == '\n');
            }
        }
    }
    assert(!el.contains('\n')) by {
        if el.contains('\n') {
            let i = choose|i: int| 0 <= i < el.len() && el[i] == '\n';
            if i < q.len() {
                assert(q[i] == '\n');
            } else {
                assert(n[i - q.len()] == '\n');
            }
        }
    }
    assert(sl.last() != '\r') by {
        if n.len() == 0 {
            assert(sl =~= p);
        } else {
            assert(sl.last() == n.last());
        }
    }
    assert(el.last() != '\r') by {
        if n.len() == 0 {
            assert(el =~= q);
        } else {
            assert(el.last() == n.last());
        }
    }
    let body = body_of(c);
    let t = trim_spec(c);
    assert(t == c);
    let r = sl.push('\n') + body + el.push('\n');
    assert(render_spec(BlockView::Managed { name: n, content: c }, false) == Some(r));
    lemma_split_lines_line(sl, body + el.push('\n'), seq![]);
    assert(sl.push('\n') + (body + el.push('\n')) =~= r);
    assert(Seq::<char>::empty() + sl =~= sl);
    lemma_lines_single(el);
    if body.len() > 0 {
        lemma_split_lines_append(body, el.push('\n'), seq![]);
    } else {
        assert(body + el.push('\n') =~= el.push('\n'));
        assert(lines_spec(body) =~= Seq::<Seq<char>>::empty());
    }
    assert(seq![sl] + (lines_spec(body) + seq![el]) =~= seq![sl] + lines_spec(body) + seq![el]);
}

/// Text that ends with a newline, a newline, then more text: its lines.
pub proof fn lemma_lines_blank_between(a: Seq<char>, b: Seq<char>)
    requires
        a.len() > 0,
        a.last() == '\n',
    ensures
        lines_spec(a.push('\n') + b) == lines_spec(a) + (seq![Seq::<char>::empty()] + lines_spec(b)),
{
    lemma_split_lines_append(a, seq!['\n'] + b, seq![]);
    assert(a.push('\n') + b =~= a + (seq!['\n'] + b));
    lemma_split_lines_line(Seq::<char>::empty(), b, seq![]);
    assert(Seq::<char>::empty().push('\n') + b =~= seq!['\n'] + b);
    assert(Seq::<char>::empty() + Seq::<char>::empty() =~= Seq::<char>::empty());
}

/// A key occurs among the templates exactly when it occurs among their
/// canonical entries.
pub proof fn lemma_canonical_keys(ts: Seq<(Seq<char>, Seq<char>)>, k: Seq<char>)
    ensures
        key_occurs(ts, k) <==> key_occurs(canonical(ts), k),
    decreases ts.len(),
{
    lemma_canonical(ts);
    if key_occurs(canonical(ts), k) {
        let a = choose|a: int| 0 <= a < canonical(ts).len() && key_of(canonical(ts)[a].0) == k;
        let j = choose|j: int| 0 <= j < ts.len() && canonical(ts)[a] == ts[j];
        assert(key_of(ts[j].0) == k);
    }
    if ts.len() > 0 && key_occurs(ts, k) {
        let rest = ts.drop_first();
        lemma_canonical_keys(rest, k);
        let j = choose|j: int| 0 <= j < ts.len() && key_of(ts[j].0) == k;
        let c = canonical(ts);
        let cr = canonical(rest);
        if j > 0 {
            assert(rest[j - 1] == ts[j]);
            assert(key_occurs(rest, k));
            let a = choose|a: int| 0 <= a < cr.len() && key_of(cr[a].0) == k;
            if !key_occurs(rest, key_of(ts[0].0)) {
                assert(c[a + 1] == cr[a]);
            }
        } else if key_occurs(rest, key_of(ts[0].0)) {
            let a = choose|a: int| 0 <= a < cr.len() && key_of(cr[a].0) == k;
            assert(c[a] == cr[a]);
        } else {
            assert(c[0] == ts[0]);
        }
    }
}

/// The blocks that `unmatched` yields have distinct keys when the entries do.
pub proof fn lemma_unmatched_distinct(es: Seq<(Seq<char>, Seq<char>)>, keys: Set<Seq<char>>)
    requires
        forall|a: int, b: int|
            0 <= a < b < es.len() ==> key_of(#[trigger] es[a].0) != key_of(#[trigger] es[b].0),
    ensures
        forall|a: int, b: int|
            0 <= a < b < unmatched(es, keys).len() ==> block_key(#[trigger] unmatched(es, keys)[a])
                != block_key(#[trigger] unmatched(es, keys)[b]),
    decreases es.len(),
{
    if es.len() > 0 {
        let d = es.drop_last();
        assert forall|a: int, b: int| 0 <= a < b < d.len() implies key_of(#[trigger] d[a].0) != key_of(
            #[trigger] d[b].0,
        ) by {
            assert(d[a] == es[a]);
            assert(d[b] == es[b]);
        }
        lemma_unmatched_distinct(d, keys);
        lemma_unmatched(d, keys);
        let u = unmatched(es, keys);
        let ud = unmatched(d, keys);
        assert forall|a: int, b: int| 0 <= a < b < u.len() implies block_key(#[trigger] u[a]) != block_key(
            #[trigger] u[b],
        ) by {
            if b < ud.len() {
                assert(u[a] == ud[a]);
                assert(u[b] == ud[b]);
            } else {
                assert(u[b] == managed_template(es.last()));
                assert(u[a] == ud[a]);
                let j = choose|j: int|
                    0 <= j < d.len() && !keys.contains(key_of(d[j].0)) && #[trigger] ud[a]
                        == managed_template(d[j]);
                assert(d[j] == es[j]);
                assert(key_of(es[j].0) != key_of(es[es.len() - 1].0));
            }
        }
    }
}

/// What patching keeps and what it changes. With `r` the blocks after
/// patching `bs` with the templates `ts`:
/// - the blocks of `bs` keep their places and their keys, and custom blocks
///   are kept as they are;
/// - the first managed block of a requested key takes the requested
///   template's name and trimmed content in place, every other block of
///   `bs` is kept;
/// - the blocks after those of `bs` are new managed blocks, each of a
///   requested key that no managed block of `bs` had, no two of the same key:
///   no template is ever added twice;
/// - every requested key has a managed block in `r`.
pub proof fn law_patch_keeps_and_updates(bs: Seq<BlockView>, ts: Seq<(Seq<char>, Seq<char>)>)
    ensures
        patch_spec(bs, ts).len() >= bs.len(),
        forall|i: int|
            0 <= i < bs.len() ==> block_key(#[trigger] patch_spec(bs, ts)[i]) == block_key(bs[i]),
        forall|i: int|
            0 <= i < bs.len() && bs[i] is Custom ==> #[trigger] patch_spec(bs, ts)[i] == bs[i],
        forall|i: int|
            0 <= i < bs.len() ==> #[trigger] patch_spec(bs, ts)[i] == patched_at(
                bs,
                canonical(ts),
                Set::empty(),
                i,
            ),
        forall|i: int|
            bs.len() <= i < patch_spec(bs, ts).len() ==> (#[trigger] patch_spec(bs, ts)[i]) is Managed
                && !managed_keys(bs).contains(block_key(patch_spec(bs, ts)[i])->0) && key_occurs(
                ts,
                block_key(patch_spec(bs, ts)[i])->0,
            ),
        forall|i: int, j: int|
            bs.len() <= i < j < patch_spec(bs, ts).len() ==> block_key(
                #[trigger] patch_spec(bs, ts)[i],
            ) != block_key(#[trigger] patch_spec(bs, ts)[j]),
        forall|k: Seq<char>| key_occurs(ts, k) ==> #[trigger] managed_keys(patch_spec(bs, ts)).contains(k),
{
    let es = canonical(ts);
    lemma_canonical(ts);
    let pb = patch_blocks(bs, es, Set::empty());
    let u = unmatched(es, managed_keys(bs));
    let r = pb + u;
    assert(r == patch_spec(bs, ts));
    lemma_patch_blocks_keys(bs, es, Set::empty());
    lemma_patch_blocks_elem(bs, es, Set::empty());
    lemma_unmatched(es, managed_keys(bs));
    lemma_unmatched_distinct(es, managed_keys(bs));
    assert forall|i: int| 0 <= i < bs.len() implies block_key(#[trigger] r[i]) == block_key(bs[i]) by {
        assert(r[i] == pb[i]);
    }
    assert forall|i: int| 0 <= i < bs.len() && bs[i] is Custom implies #[trigger] r[i] == bs[i] by {
        assert(r[i] == pb[i]);
    }
    assert forall|i: int| 0 <= i < bs.len() implies #[trigger] r[i] == patched_at(
        bs,
        es,
        Set::empty(),
        i,
    ) by {
        assert(r[i] == pb[i]);
    }
    assert forall|i: int| bs.len() <= i < r.len() implies (#[trigger] r[i]) is Managed
        && !managed_keys(bs).contains(block_key(r[i])->0) && key_occurs(ts, block_key(r[i])->0) by {
        let a = i - bs.len();
        assert(r[i] == u[a]);
        let j = choose|j: int|
            0 <= j < es.len() && !managed_keys(bs).contains(key_of(es[j].0)) && #[trigger] u[a]
                == managed_template(es[j]);
        let t = choose|t: int| 0 <= t < ts.len() && es[j] == ts[t];
        assert(key_of(ts[t].0) == key_of(es[j].0));
    }
    assert forall|i: int, j: int| bs.len() <= i < j < r.len() implies block_key(#[trigger] r[i])
        != block_key(#[trigger] r[j]) by {
        assert(r[i] == u[i - bs.len()]);
        assert(r[j] == u[j - bs.len()]);
    }
    assert forall|k: Seq<char>| key_occurs(ts, k) implies #[trigger] managed_keys(r).contains(k) by {
        lemma_canonical_keys(ts, k);
        let j = choose|j: int| 0 <= j < es.len() && key_of(es[j].0) == k;
        if managed_keys(bs).contains(k) {
            let i = choose|i: int| 0 <= i < bs.len() && block_key(bs[i]) == Some(k);
            assert(r[i] == pb[i]);
        } else {
            let a = choose|a: int| 0 <= a < u.len() && u[a] == managed_template(es[j]);
            assert(r[bs.len() + a] == u[a]);
            assert(block_key(r[bs.len() + a]) == Some(k));
        }
    }
}

} // verus!
