//! Character-level text utilities: whitespace, trimming, line splitting and
//! conversions between `str`/`String` and vectors of characters.

use vstd::prelude::*;

verus! {

/// The Unicode `White_Space` property, as `char::is_whitespace` defines it.
pub open spec fn is_white_space(c: char) -> bool {
    let u = c as u32;
    ||| (0x9 <= u && u <= 0xD)
    ||| u == 0x20
    ||| u == 0x85
    ||| u == 0xA0
    ||| u == 0x1680
    ||| (0x2000 <= u && u <= 0x200A)
    ||| u == 0x2028
    ||| u == 0x2029
    ||| u == 0x202F
    ||| u == 0x205F
    ||| u == 0x3000
}

/// Decides whether a character is whitespace.
pub fn is_whitespace(c: char) -> (r: bool)
    ensures
        r == is_white_space(c),
{
    let u = c as u32;
    (0x9 <= u && u <= 0xD) || u == 0x20 || u == 0x85 || u == 0xA0 || u == 0x1680 || (0x2000 <= u
        && u <= 0x200A) || u == 0x2028 || u == 0x2029 || u == 0x202F || u == 0x205F || u == 0x3000
}

/// `s` with its trailing whitespace removed.
pub open spec fn trim_end_spec(s: Seq<char>) -> Seq<char>
    decreases s.len(),
{
    if s.len() > 0 && is_white_space(s.last()) {
        trim_end_spec(s.drop_last())
    } else {
        s
    }
}

/// `s` with its leading whitespace removed.
pub open spec fn trim_start_spec(s: Seq<char>) -> Seq<char>
    decreases s.len(),
{
    if s.len() > 0 && is_white_space(s[0]) {
        trim_start_spec(s.drop_first())
    } else {
        s
    }
}

/// `s` with leading and trailing whitespace removed.
pub open spec fn trim_spec(s: Seq<char>) -> Seq<char> {
    trim_start_spec(trim_end_spec(s))
}

/// Trimming the end of `s` keeps exactly the first `e` characters when
/// everything from `e` on is whitespace and the character before `e` is not.
pub proof fn lemma_trim_end_take(s: Seq<char>, e: int)
    requires
        0 <= e <= s.len(),
        forall|k: int| e <= k < s.len() ==> is_white_space(#[trigger] s[k]),
        e == 0 || !is_white_space(s[e - 1]),
    ensures
        trim_end_spec(s) == s.take(e),
    decreases s.len() - e,
{
    if e == s.len() {
        assert(s.take(e) =~= s);
    } else {
        assert(is_white_space(s.last()));
        let d = s.drop_last();
        assert forall|k: int| e <= k < d.len() implies is_white_space(#[trigger] d[k]) by {
            assert(d[k] == s[k]);
        }
        if e > 0 {
            assert(d[e - 1] == s[e - 1]);
        }
        lemma_trim_end_take(d, e);
        assert(d.take(e) =~= s.take(e));
    }
}

/// Trimming the start of `s` drops exactly the first `b` characters when they
/// are all whitespace and the character at `b` is not.
pub proof fn lemma_trim_start_skip(s: Seq<char>, b: int)
    requires
        0 <= b <= s.len(),
        forall|k: int| 0 <= k < b ==> is_white_space(#[trigger] s[k]),
        b == s.len() || !is_white_space(s[b]),
    ensures
        trim_start_spec(s) == s.skip(b),
    decreases b,
{
    if b == 0 {
        assert(s.skip(0) =~= s);
    } else {
        assert(is_white_space(s[0]));
        let d = s.drop_first();
        assert forall|k: int| 0 <= k < b - 1 implies is_white_space(#[trigger] d[k]) by {
            assert(d[k] == s[k + 1]);
        }
        if b < s.len() {
            assert(d[b - 1] == s[b]);
        }
        lemma_trim_start_skip(d, b - 1);
        assert(d.skip(b - 1) =~= s.skip(b));
    }
}

/// Copies the characters `s[from..to]` into a new vector.
pub fn copy_range(s: &Vec<char>, from: usize, to: usize) -> (r: Vec<char>)
    requires
        from <= to <= s.len(),
    ensures
        r@ == s@.subrange(from as int, to as int),
{
    let mut r: Vec<char> = Vec::new();
    let mut i: usize = from;
    while i < to
        invariant
            from <= i <= to <= s.len(),
            r@ == s@.subrange(from as int, i as int),
        decreases to - i,
    {
        r.push(s[i]);
        i = i + 1;
    }
    r
}

/// Removes trailing whitespace.
pub fn trim_end_chars(s: &Vec<char>) -> (r: Vec<char>)
    ensures
        r@ == trim_end_spec(s@),
{
    let mut e: usize = s.len();
    while e > 0 && is_whitespace(s[e - 1])
        invariant
            e <= s.len(),
            forall|k: int| e <= k < s.len() ==> is_white_space(#[trigger] s@[k]),
        decreases e,
    {
        e = e - 1;
    }
    proof {
        lemma_trim_end_take(s@, e as int);
    }
    copy_range(s, 0, e)
}

/// Removes leading whitespace.
pub fn trim_start_chars(s: &Vec<char>) -> (r: Vec<char>)
    ensures
        r@ == trim_start_spec(s@),
{
    let mut b: usize = 0;
    while b < s.len() && is_whitespace(s[b])
        invariant
            b <= s.len(),
            forall|k: int| 0 <= k < b ==> is_white_space(#[trigger] s@[k]),
        decreases s.len() - b,
    {
        b = b + 1;
    }
    proof {
        lemma_trim_start_skip(s@, b as int);
    }
    let r = copy_range(s, b, s.len());
    assert(r@ =~= s@.skip(b as int));
    r
}

/// Removes leading and trailing whitespace.
pub fn trim_chars(s: &Vec<char>) -> (r: Vec<char>)
    ensures
        r@ == trim_spec(s@),
{
    let t = trim_end_chars(s);
    trim_start_chars(&t)
}

/// A line with one trailing carriage return removed, if it has one.
pub open spec fn strip_cr(x: Seq<char>) -> Seq<char> {
    if x.len() > 0 && x.last() == '\r' {
        x.drop_last()
    } else {
        x
    }
}

/// The lines of `s`, as `str::lines` yields them, where `cur` is the part of
/// the current line already read: a line ends at `'\n'` (a `'\r'` right before
/// it is dropped too), and a last line without `'\n'` is kept when non-empty.
pub open spec fn split_lines(s: Seq<char>, cur: Seq<char>) -> Seq<Seq<char>>
    decreases s.len(),
{
    if s.len() == 0 {
        if cur.len() == 0 {
            seq![]
        } else {
            seq![cur]
        }
    } else if s[0] == '\n' {
        seq![strip_cr(cur)] + split_lines(s.drop_first(), seq![])
    } else {
        split_lines(s.drop_first(), cur.push(s[0]))
    }
}

/// The lines of `s`.
pub open spec fn lines_spec(s: Seq<char>) -> Seq<Seq<char>> {
    split_lines(s, seq![])
}

/// The view of each vector of characters in a sequence.
pub open spec fn char_views(v: Seq<Vec<char>>) -> Seq<Seq<char>> {
    v.map_values(|x: Vec<char>| x@)
}

/// Splits `s` into lines, as `str::lines` does.
pub fn split_into_lines(s: &Vec<char>) -> (r: Vec<Vec<char>>)
    ensures
        char_views(r@) == lines_spec(s@),
{
    let mut r: Vec<Vec<char>> = Vec::new();
    let mut cur: Vec<char> = Vec::new();
    let mut i: usize = 0;
    assert(s@.skip(0) =~= s@);
    assert(char_views(r@) =~= Seq::<Seq<char>>::empty());
    while i < s.len()
        invariant
            i <= s.len(),
            char_views(r@) + split_lines(s@.skip(i as int), cur@) == lines_spec(s@),
        decreases s.len() - i,
    {
        let ghost rest = s@.skip(i as int);
        assert(rest.drop_first() =~= s@.skip(i + 1));
        if s[i] == '\n' {
            let n = cur.len();
            let line = if n > 0 && cur[n - 1] == '\r' {
                copy_range(&cur, 0, n - 1)
            } else {
                copy_range(&cur, 0, n)
            };
            assert(line@ == strip_cr(cur@)) by {
                assert(cur@.subrange(0, n as int) =~= cur@);
                if n > 0 {
                    assert(cur@.subrange(0, n - 1) =~= cur@.drop_last());
                }
            }
            let ghost before = char_views(r@);
            r.push(line);
            assert(char_views(r@) =~= before.push(line@));
            assert(char_views(r@) + split_lines(s@.skip(i + 1), seq![]) =~= before + (seq![
                strip_cr(cur@),
            ] + split_lines(rest.drop_first(), seq![])));
            cur = Vec::new();
        } else {
            cur.push(s[i]);
        }
        i = i + 1;
    }
    assert(s@.skip(i as int) =~= Seq::<char>::empty());
    if cur.len() > 0 {
        let ghost before = char_views(r@);
        r.push(cur);
        assert(char_views(r@) =~= before.push(cur@));
    }
    assert(char_views(r@) =~= lines_spec(s@));
    r
}

/// The characters of `s`.
pub fn str_to_chars(s: &str) -> (r: Vec<char>)
    ensures
        r@ == s@,
{
    let mut r: Vec<char> = Vec::new();
    for c in it: s.chars()
        invariant
            it.seq() == s@,
            r@ == s@.take(it.index()),
            it.index() == s@.len() ==> r@ == s@,
    {
        assert(s@.take(it.index() + 1) =~= r@.push(c));
        r.push(c);
        assert(it.index() + 1 == s@.len() ==> s@.take(it.index() + 1) =~= s@);
    }
    r
}

/// Characters equal.
pub fn chars_eq(a: &Vec<char>, b: &Vec<char>) -> (r: bool)
    ensures
        r == (a@ == b@),
{
    if a.len() != b.len() {
        return false;
    }
    let mut i: usize = 0;
    while i < a.len()
        invariant
            a.len() == b.len(),
            i <= a.len(),
            forall|k: int| 0 <= k < i ==> a@[k] == b@[k],
        decreases a.len() - i,
    {
        if a[i] != b[i] {
            return false;
        }
        i = i + 1;
    }
    assert(a@ =~= b@);
    true
}

/// `p` is a prefix of `s`.
pub open spec fn has_prefix(s: Seq<char>, p: Seq<char>) -> bool {
    p.len() <= s.len() && s.take(p.len() as int) == p
}

/// Decides whether `p` is a prefix of `s`.
pub fn starts_with(s: &Vec<char>, p: &Vec<char>) -> (r: bool)
    ensures
        r == has_prefix(s@, p@),
{
    if p.len() > s.len() {
        return false;
    }
    let mut i: usize = 0;
    while i < p.len()
        invariant
            p.len() <= s.len(),
            i <= p.len(),
            forall|k: int| 0 <= k < i ==> s@[k] == p@[k],
        decreases p.len() - i,
    {
        if s[i] != p[i] {
            assert(s@.take(p.len() as int)[i as int] != p@[i as int]);
            return false;
        }
        i = i + 1;
    }
    assert(s@.take(p.len() as int) =~= p@);
    true
}

/// Appends the characters of `src` to `dst`.
pub fn append_chars(dst: &mut Vec<char>, src: &Vec<char>)
    ensures
        final(dst)@ == old(dst)@ + src@,
{
    let mut i: usize = 0;
    while i < src.len()
        invariant
            i <= src.len(),
            dst@ == old(dst)@ + src@.take(i as int),
        decreases src.len() - i,
    {
        dst.push(src[i]);
        i = i + 1;
        assert(dst@ =~= old(dst)@ + src@.take(i as int));
    }
    assert(src@.take(src.len() as int) =~= src@);
}

/// Builds a `String` from its characters (`FromIterator<char>` for
/// `String`): the string holds exactly these characters, in order.
#[verifier::external_body]
pub(crate) fn chars_to_string(v: &Vec<char>) -> (r: String)
    ensures
        r@ == v@,
{
    v.iter().collect()
}

/// The characters of a `String`.
pub fn string_chars(s: &String) -> (r: Vec<char>)
    ensures
        r@ == s@,
{
    str_to_chars(s.as_str())
}

/// What `str::to_lowercase` returns for a string with these characters.
pub uninterp spec fn str_lowercase(s: Seq<char>) -> Seq<char>;

/// `str::to_lowercase`: the result is the lowercase mapping of `s`, named by
/// `str_lowercase`, a function of the characters of `s` alone.
#[verifier::external_body]
pub(crate) fn lowercase(s: &str) -> (r: String)
    ensures
        r@ == str_lowercase(s@),
{
    s.to_lowercase()
}

/// `s` holds a carriage return directly followed by a newline.
pub open spec fn has_crlf(s: Seq<char>) -> bool {
    exists|i: int| 0 <= i < s.len() - 1 && s[i] == '\r' && #[trigger] s[i + 1] == '\n'
}

/// Splitting text that ends with a newline, followed by more text, splits
/// each part on its own.
pub proof fn lemma_split_lines_append(a: Seq<char>, b: Seq<char>, cur: Seq<char>)
    requires
        a.len() > 0,
        a.last() == '\n',
    ensures
        split_lines(a + b, cur) == split_lines(a, cur) + split_lines(b, seq![]),
    decreases a.len(),
{
    let ab = a + b;
    assert(ab[0] == a[0]);
    if a[0] == '\n' {
        assert(ab.drop_first() =~= a.drop_first() + b);
        if a.len() == 1 {
            assert(a.drop_first() =~= Seq::<char>::empty());
            assert(a.drop_first() + b =~= b);
            assert(split_lines(a.drop_first(), seq![]) =~= Seq::<Seq<char>>::empty());
        } else {
            lemma_split_lines_append(a.drop_first(), b, seq![]);
        }
    } else {
        assert(ab.drop_first() =~= a.drop_first() + b);
        lemma_split_lines_append(a.drop_first(), b, cur.push(a[0]));
    }
}

/// A line without newline, ended by a newline and followed by more text.
pub proof fn lemma_split_lines_line(x: Seq<char>, b: Seq<char>, cur: Seq<char>)
    requires
        !x.contains('\n'),
    ensures
        split_lines(x.push('\n') + b, cur) == seq![strip_cr(cur + x)] + split_lines(b, seq![]),
    decreases x.len(),
{
    let s = x.push('\n') + b;
    if x.len() == 0 {
        assert(s[0] == '\n');
        assert(s.drop_first() =~= b);
        assert(cur + x =~= cur);
    } else {
        assert(s[0] == x[0]);
        assert(x[0] != '\n');
        let d = x.drop_first();
        assert(!d.contains('\n')) by {
            if d.contains('\n') {
                let i = choose|i: int| 0 <= i < d.len() && d[i] == '\n';
                assert(x[i + 1] == '\n');
            }
        }
        assert(s.drop_first() =~= d.push('\n') + b);
        lemma_split_lines_line(d, b, cur.push(x[0]));
        assert(cur.push(x[0]) + d =~= cur + x);
    }
}

/// The lines of a single line ended by a newline.
pub proof fn lemma_lines_single(x: Seq<char>)
    requires
        !x.contains('\n'),
        x.len() == 0 || x.last() != '\r',
    ensures
        lines_spec(x.push('\n')) == seq![x],
{
    lemma_split_lines_line(x, seq![], seq![]);
    assert(x.push('\n') + Seq::<char>::empty() =~= x.push('\n'));
    assert(Seq::<char>::empty() + x =~= x);
    assert(split_lines(Seq::<char>::empty(), seq![]) =~= Seq::<Seq<char>>::empty());
    assert(seq![x] + Seq::<Seq<char>>::empty() =~= seq![x]);
}

/// The pieces of `s` between occurrences of `sep`, as `str::split` yields
/// them, where `cur` is the part of the current piece already read.
pub open spec fn split_on(s: Seq<char>, sep: char, cur: Seq<char>) -> Seq<Seq<char>>
    decreases s.len(),
{
    if s.len() == 0 {
        seq![cur]
    } else if s[0] == sep {
        seq![cur] + split_on(s.drop_first(), sep, seq![])
    } else {
        split_on(s.drop_first(), sep, cur.push(s[0]))
    }
}

/// The pieces of `s` between occurrences of `sep`.
pub open spec fn split_spec(s: Seq<char>, sep: char) -> Seq<Seq<char>> {
    split_on(s, sep, seq![])
}

/// Splits `s` at every `sep`, as `str::split` does.
pub fn split_chars(s: &Vec<char>, sep: char) -> (r: Vec<Vec<char>>)
    ensures
        char_views(r@) == split_spec(s@, sep),
{
    let mut r: Vec<Vec<char>> = Vec::new();
    let mut cur: Vec<char> = Vec::new();
    let mut i: usize = 0;
    assert(s@.skip(0) =~= s@);
    assert(char_views(r@) =~= Seq::<Seq<char>>::empty());
    while i < s.len()
        invariant
            i <= s.len(),
            char_views(r@) + split_on(s@.skip(i as int), sep, cur@) == split_spec(s@, sep),
        decreases s.len() - i,
    {
        let ghost rest = s@.skip(i as int);
        assert(rest.drop_first() =~= s@.skip(i + 1));
        if s[i] == sep {
            let ghost before = char_views(r@);
            let piece = copy_range(&cur, 0, cur.len());
            assert(piece@ =~= cur@);
            r.push(piece);
            assert(char_views(r@) =~= before.push(cur@));
            assert(char_views(r@) + split_on(s@.skip(i + 1), sep, seq![]) =~= before + (seq![cur@]
                + split_on(rest.drop_first(), sep, seq![])));
            cur = Vec::new();
        } else {
            cur.push(s[i]);
        }
        i = i + 1;
    }
    assert(s@.skip(i as int) =~= Seq::<char>::empty());
    let ghost before = char_views(r@);
    r.push(cur);
    assert(char_views(r@) =~= before.push(cur@));
    r
}

/// The sequence with every element after its first occurrence removed.
pub open spec fn dedup<A>(xs: Seq<A>) -> Seq<A>
    decreases xs.len(),
{
    if xs.len() == 0 {
        seq![]
    } else if xs.drop_last().contains(xs.last()) {
        dedup(xs.drop_last())
    } else {
        dedup(xs.drop_last()).push(xs.last())
    }
}

/// Removing repeats keeps exactly the elements, each once.
pub proof fn lemma_dedup<A>(xs: Seq<A>)
    ensures
        forall|x: A| dedup(xs).contains(x) <==> xs.contains(x),
        dedup(xs).no_duplicates(),
    decreases xs.len(),
{
    if xs.len() > 0 {
        let d = xs.drop_last();
        lemma_dedup(d);
        assert forall|x: A| dedup(xs).contains(x) <==> xs.contains(x) by {
            if xs.contains(x) {
                let i = choose|i: int| 0 <= i < xs.len() && xs[i] == x;
                if i < d.len() {
                    assert(d[i] == x);
                    assert(d.contains(x));
                }
            }
            if d.contains(x) {
                let i = choose|i: int| 0 <= i < d.len() && d[i] == x;
                assert(xs[i] == x);
            }
            if !d.contains(xs.last()) {
                let dd = dedup(d).push(xs.last());
                assert(dd[dd.len() - 1] == xs.last());
                if dedup(d).contains(x) {
                    let i = choose|i: int| 0 <= i < dedup(d).len() && dedup(d)[i] == x;
                    assert(dd[i] == x);
                }
                if dd.contains(x) && x != xs.last() {
                    let i = choose|i: int| 0 <= i < dd.len() && dd[i] == x;
                    assert(dedup(d)[i] == x);
                }
            }
        }
        if !d.contains(xs.last()) {
            let dd = dedup(d).push(xs.last());
            assert forall|i: int, j: int| 0 <= i < dd.len() && 0 <= j < dd.len() && i != j implies dd[i]
                != dd[j] by {
                if i == dd.len() - 1 {
                    assert(dedup(d)[j] == dd[j]);
                    assert(dedup(d).contains(dd[j]));
                } else if j == dd.len() - 1 {
                    assert(dedup(d)[i] == dd[i]);
                    assert(dedup(d).contains(dd[i]));
                }
            }
        }
    }
}

/// What `String::from_utf8_lossy` returns for bytes that are not valid
/// UTF-8.
pub uninterp spec fn utf8_lossy_of_invalid(bytes: Seq<u8>) -> Seq<char>;

/// What `String::from_utf8_lossy` returns: the decoded text of valid UTF-8,
/// and for other bytes the text named by `utf8_lossy_of_invalid`.
pub open spec fn utf8_lossy_spec(bytes: Seq<u8>) -> Seq<char> {
    if vstd::utf8::valid_utf8(bytes) {
        vstd::utf8::decode_utf8(bytes)
    } else {
        utf8_lossy_of_invalid(bytes)
    }
}

/// `String::from_utf8_lossy`: the text of the bytes, each invalid sequence
/// replaced by U+FFFD; for valid UTF-8 the decoded text, otherwise the text
/// named by `utf8_lossy_of_invalid`.
#[verifier::external_body]
pub(crate) fn utf8_lossy(bytes: &[u8]) -> (r: String)
    ensures
        r@ == (if vstd::utf8::valid_utf8(bytes@) {
            vstd::utf8::decode_utf8(bytes@)
        } else {
            utf8_lossy_of_invalid(bytes@)
        }),
{
    String::from_utf8_lossy(bytes).into_owned()
}

/// `p` is a prefix of the bytes `s`.
pub open spec fn has_byte_prefix(s: Seq<u8>, p: Seq<u8>) -> bool {
    p.len() <= s.len() && s.take(p.len() as int) == p
}

/// `p` is a suffix of the bytes `s`.
pub open spec fn has_byte_suffix(s: Seq<u8>, p: Seq<u8>) -> bool {
    p.len() <= s.len() && s.skip(s.len() - p.len()) == p
}

/// Decides whether `p` is a prefix of `s`.
pub fn bytes_start_with(s: &[u8], p: &[u8]) -> (r: bool)
    ensures
        r == has_byte_prefix(s@, p@),
{
    if p.len() > s.len() {
        return false;
    }
    let mut i: usize = 0;
    while i < p.len()
        invariant
            p.len() <= s.len(),
            i <= p.len(),
            forall|k: int| 0 <= k < i ==> s@[k] == p@[k],
        decreases p.len() - i,
    {
        if s[i] != p[i] {
            assert(s@.take(p.len() as int)[i as int] != p@[i as int]);
            return false;
        }
        i = i + 1;
    }
    assert(s@.take(p.len() as int) =~= p@);
    true
}

/// Decides whether `p` is a suffix of `s`.
pub fn bytes_end_with(s: &[u8], p: &[u8]) -> (r: bool)
    ensures
        r == has_byte_suffix(s@, p@),
{
    if p.len() > s.len() {
        return false;
    }
    let off = s.len() - p.len();
    let mut i: usize = 0;
    while i < p.len()
        invariant
            p.len() <= s.len(),
            off == s.len() - p.len(),
            i <= p.len(),
            forall|k: int| 0 <= k < i ==> s@[off + k] == p@[k],
        decreases p.len() - i,
    {
        if s[off + i] != p[i] {
            assert(s@.skip(off as int)[i as int] != p@[i as int]);
            return false;
        }
        i = i + 1;
    }
    assert(s@.skip(off as int) =~= p@);
    true
}

/// Copies the bytes `s[from..to]` into a new vector.
pub fn copy_byte_range(s: &[u8], from: usize, to: usize) -> (r: Vec<u8>)
    requires
        from <= to <= s.len(),
    ensures
        r@ == s@.subrange(from as int, to as int),
{
    let mut r: Vec<u8> = Vec::new();
    let mut i: usize = from;
    while i < to
        invariant
            from <= i <= to <= s.len(),
            r@ == s@.subrange(from as int, i as int),
        decreases to - i,
    {
        r.push(s[i]);
        i = i + 1;
    }
    r
}

/// `p` is a suffix of `s`.
pub open spec fn has_suffix(s: Seq<char>, p: Seq<char>) -> bool {
    p.len() <= s.len() && s.skip(s.len() - p.len()) == p
}

/// Decides whether `p` is a suffix of `s`.
pub fn ends_with(s: &Vec<char>, p: &Vec<char>) -> (r: bool)
    ensures
        r == has_suffix(s@, p@),
{
    if p.len() > s.len() {
        return false;
    }
    let off = s.len() - p.len();
    let mut i: usize = 0;
    while i < p.len()
        invariant
            p.len() <= s.len(),
            off == s.len() - p.len(),
            i <= p.len(),
            forall|k: int| 0 <= k < i ==> s@[off + k] == p@[k],
        decreases p.len() - i,
    {
        if s[off + i] != p[i] {
            assert(s@.skip(off as int)[i as int] != p@[i as int]);
            return false;
        }
        i = i + 1;
    }
    assert(s@.skip(off as int) =~= p@);
    true
}

/// The concatenation of a literal and a string.
pub fn concat_str_string(a: &str, b: &String) -> (r: String)
    ensures
        r@ == a@ + b@,
{
    let mut v = str_to_chars(a);
    let w = string_chars(b);
    append_chars(&mut v, &w);
    chars_to_string(&v)
}

/// The end of the run of whitespace that starts at `i` in `t`.
pub open spec fn ws_run_from(t: Seq<char>, i: int) -> int
    decreases t.len() - i,
{
    if 0 <= i < t.len() && is_white_space(t[i]) {
        ws_run_from(t, i + 1)
    } else {
        i
    }
}

/// The index right after the last newline among the first `n` characters of
/// `t`, or 0 when there is none.
pub open spec fn after_last_newline(t: Seq<char>, n: int) -> int
    decreases n,
{
    if n <= 0 {
        0
    } else if t[n - 1] == '\n' {
        n
    } else {
        after_last_newline(t, n - 1)
    }
}

/// `t` without its leading blank lines: without everything up to the last
/// newline of the whitespace it starts with.
pub open spec fn strip_blank_lines(t: Seq<char>) -> Seq<char> {
    t.skip(after_last_newline(t, ws_run_from(t, 0)))
}

/// The run of whitespace from `i` is whitespace, and ends at the end or at a
/// character that is not whitespace.
pub proof fn lemma_ws_run(t: Seq<char>, i: int)
    requires
        0 <= i <= t.len(),
    ensures
        i <= ws_run_from(t, i) <= t.len(),
        forall|j: int| i <= j < ws_run_from(t, i) ==> is_white_space(#[trigger] t[j]),
        ws_run_from(t, i) < t.len() ==> !is_white_space(t[ws_run_from(t, i)]),
    decreases t.len() - i,
{
    if i < t.len() && is_white_space(t[i]) {
        lemma_ws_run(t, i + 1);
    }
}

/// The run of whitespace from `i` is the one that the characters show.
pub proof fn lemma_ws_run_is(t: Seq<char>, i: int, w: int)
    requires
        0 <= i <= w <= t.len(),
        forall|j: int| i <= j < w ==> is_white_space(#[trigger] t[j]),
        w < t.len() ==> !is_white_space(t[w]),
    ensures
        ws_run_from(t, i) == w,
    decreases w - i,
{
    if i < w {
        lemma_ws_run_is(t, i + 1, w);
    }
}

/// The position after the last newline before `n`.
pub proof fn lemma_after_last_newline(t: Seq<char>, n: int)
    requires
        0 <= n <= t.len(),
    ensures
        0 <= after_last_newline(t, n) <= n,
        after_last_newline(t, n) > 0 ==> t[after_last_newline(t, n) - 1] == '\n',
        forall|j: int| after_last_newline(t, n) <= j < n ==> #[trigger] t[j] != '\n',
    decreases n,
{
    if n > 0 && t[n - 1] != '\n' {
        lemma_after_last_newline(t, n - 1);
    }
}

/// The position after the last newline before `n` is the one the characters
/// show.
pub proof fn lemma_after_last_newline_is(t: Seq<char>, n: int, a: int)
    requires
        0 <= a <= n <= t.len(),
        a > 0 ==> t[a - 1] == '\n',
        forall|j: int| a <= j < n ==> #[trigger] t[j] != '\n',
    ensures
        after_last_newline(t, n) == a,
    decreases n,
{
    if n > a {
        lemma_after_last_newline_is(t, n - 1, a);
    }
}

/// Stripping cuts `t` right after a newline (or not at all), within its
/// leading whitespace; the rest starts with whitespace holding no newline.
pub proof fn lemma_strip_blank_lines(t: Seq<char>)
    ensures
        ({
            let a = after_last_newline(t, ws_run_from(t, 0));
            let w = ws_run_from(t, 0);
            &&& 0 <= a <= w <= t.len()
            &&& strip_blank_lines(t) == t.skip(a)
            &&& (a == 0 || t[a - 1] == '\n')
            &&& forall|j: int| a <= j < w ==> is_white_space(#[trigger] t[j]) && t[j] != '\n'
            &&& (w < t.len() ==> !is_white_space(t[w]))
        }),
{
    lemma_ws_run(t, 0);
    lemma_after_last_newline(t, ws_run_from(t, 0));
}

/// A newline in front does not change what stripping leaves.
pub proof fn lemma_strip_newline_front(c: Seq<char>)
    ensures
        strip_blank_lines(seq!['\n'] + c) == strip_blank_lines(c),
{
    let t = seq!['\n'] + c;
    lemma_strip_blank_lines(c);
    lemma_ws_run(c, 0);
    let w = ws_run_from(c, 0);
    let a = after_last_newline(c, w);
    assert('\n' as u32 == 10);
    assert(is_white_space('\n'));
    assert forall|j: int| 0 <= j < w + 1 implies is_white_space(#[trigger] t[j]) by {
        if j > 0 {
            assert(t[j] == c[j - 1]);
        } else {
            assert(t[0] == '\n');
        }
    }
    if w < c.len() {
        assert(t[w + 1] == c[w]);
    }
    lemma_ws_run_is(t, 0, w + 1);
    let a2 = if a > 0 { a + 1 } else { 1 };
    if a > 0 {
        assert(t[a2 - 1] == c[a - 1]);
    }
    assert forall|j: int| a2 <= j < w + 1 implies #[trigger] t[j] != '\n' by {
        assert(t[j] == c[j - 1]);
    }
    lemma_after_last_newline_is(t, w + 1, a2);
    assert(t.skip(a2) =~= c.skip(a));
}

/// Stripping text whose leading whitespace holds no newline leaves it.
pub proof fn lemma_strip_none(t: Seq<char>)
    requires
        forall|j: int| 0 <= j < ws_run_from(t, 0) ==> #[trigger] t[j] != '\n',
    ensures
        strip_blank_lines(t) == t,
{
    lemma_ws_run(t, 0);
    lemma_after_last_newline_is(t, ws_run_from(t, 0), 0);
    assert(t.skip(0) =~= t);
}

/// Stripping twice is stripping once; stripping text that ends with a
/// character other than whitespace leaves text that ends with it.
pub proof fn lemma_strip_idempotent(t: Seq<char>)
    ensures
        strip_blank_lines(strip_blank_lines(t)) == strip_blank_lines(t),
        t.len() > 0 && !is_white_space(t.last()) ==> strip_blank_lines(t).len() > 0
            && strip_blank_lines(t).last() == t.last(),
        strip_blank_lines(t).len() <= t.len(),
{
    lemma_strip_blank_lines(t);
    let w = ws_run_from(t, 0);
    let a = after_last_newline(t, w);
    let u = t.skip(a);
    assert forall|j: int| 0 <= j < w - a implies is_white_space(#[trigger] u[j]) by {
        assert(u[j] == t[a + j]);
    }
    if w < t.len() {
        assert(u[w - a] == t[w]);
    }
    lemma_ws_run_is(u, 0, w - a);
    assert forall|j: int| 0 <= j < ws_run_from(u, 0) implies #[trigger] u[j] != '\n' by {
        assert(u[j] == t[a + j]);
    }
    lemma_strip_none(u);
    if t.len() > 0 && !is_white_space(t.last()) {
        assert(w < t.len());
    }
}

/// Removes the leading blank lines of `t`.
pub fn strip_blank_lines_chars(t: &Vec<char>) -> (r: Vec<char>)
    ensures
        r@ == strip_blank_lines(t@),
{
    let mut i: usize = 0;
    let mut cut: usize = 0;
    while i < t.len() && is_whitespace(t[i])
        invariant
            i <= t.len(),
            ws_run_from(t@, i as int) == ws_run_from(t@, 0),
            cut == after_last_newline(t@, i as int),
            cut <= i,
        decreases t.len() - i,
    {
        if t[i] == '\n' {
            cut = i + 1;
        }
        i = i + 1;
    }
    assert(ws_run_from(t@, i as int) == i);
    let r = copy_range(t, cut, t.len());
    assert(r@ =~= t@.skip(cut as int));
    r
}

} // verus!
