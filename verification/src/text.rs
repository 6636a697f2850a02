//! Character-level helpers on names and paths: the lexicographic order that
//! `String` comparison uses, the image-extension test, and the normal form in
//! which paths are compared component by component.

use vstd::prelude::*;
use vstd::string::*;

verus! {

/// Lexicographic order on character sequences, by code point. This is the order
/// of `String` comparison (UTF-8 byte order coincides with code-point order).
pub open spec fn seq_lt(a: Seq<char>, b: Seq<char>) -> bool
    decreases a.len(),
{
    if a.len() == 0 {
        b.len() > 0
    } else if b.len() == 0 {
        false
    } else if a[0] != b[0] {
        a[0] < b[0]
    } else {
        seq_lt(a.drop_first(), b.drop_first())
    }
}

/// The lexicographic order is irreflexive.
pub proof fn lemma_seq_lt_irreflexive(a: Seq<char>)
    ensures
        !seq_lt(a, a),
    decreases a.len(),
{
    if a.len() > 0 {
        lemma_seq_lt_irreflexive(a.drop_first());
    }
}

/// Exactly one of `a < b`, `a == b`, `b < a` holds.
pub proof fn lemma_seq_lt_trichotomy(a: Seq<char>, b: Seq<char>)
    ensures
        seq_lt(a, b) || a == b || seq_lt(b, a),
        !(seq_lt(a, b) && seq_lt(b, a)),
        seq_lt(a, b) ==> a != b,
    decreases a.len(),
{
    lemma_seq_lt_irreflexive(a);
    if a.len() > 0 && b.len() > 0 && a[0] == b[0] {
        lemma_seq_lt_trichotomy(a.drop_first(), b.drop_first());
        if a.drop_first() == b.drop_first() {
            assert(a =~= b) by {
                assert forall|i: int| 0 <= i < a.len() implies a[i] == b[i] by {
                    if i > 0 {
                        assert(a[i] == a.drop_first()[i - 1]);
                        assert(b[i] == b.drop_first()[i - 1]);
                    }
                }
            }
        }
    } else if a.len() > 0 && b.len() > 0 && a[0] != b[0] {
    } else if a.len() == 0 && b.len() == 0 {
        assert(a =~= b);
    }
}

/// Names are ordered by their first differing character, by code point: when
/// `a` and `b` agree on their first `i` characters and `a[i] < b[i]`, `a` comes
/// first; and a proper prefix comes before the longer name.
pub proof fn lemma_seq_lt_first_difference(a: Seq<char>, b: Seq<char>, i: int)
    requires
        0 <= i <= a.len(),
        i <= b.len(),
        forall|j: int| 0 <= j < i ==> a[j] == b[j],
        (i < a.len() && i < b.len() && (a[i] as int) < (b[i] as int)) || (i == a.len() && i
            < b.len()),
    ensures
        seq_lt(a, b),
        !seq_lt(b, a),
    decreases i,
{
    if i > 0 {
        assert(a[0] == b[0]);
        assert forall|j: int| 0 <= j < i - 1 implies a.drop_first()[j] == b.drop_first()[j] by {
            assert(a[j + 1] == b[j + 1]);
        }
        lemma_seq_lt_first_difference(a.drop_first(), b.drop_first(), i - 1);
    }
}

/// The lexicographic order is transitive.
pub proof fn lemma_seq_lt_transitive(a: Seq<char>, b: Seq<char>, c: Seq<char>)
    requires
        seq_lt(a, b),
        seq_lt(b, c),
    ensures
        seq_lt(a, c),
    decreases a.len(),
{
    if a.len() > 0 && b.len() > 0 && c.len() > 0 && a[0] == b[0] && b[0] == c[0] {
        lemma_seq_lt_transitive(a.drop_first(), b.drop_first(), c.drop_first());
    }
}

/// Whether `a` comes strictly before `b` in lexicographic order.
pub fn text_lt(a: &str, b: &str) -> (r: bool)
    ensures
        r == seq_lt(a@, b@),
{
    let la = a.unicode_len();
    let lb = b.unicode_len();
    let mut i: usize = 0;
    assert(a@.skip(0) =~= a@);
    assert(b@.skip(0) =~= b@);
    while i < la && i < lb
        invariant
            la == a@.len(),
            lb == b@.len(),
            i <= la,
            i <= lb,
            seq_lt(a@, b@) == seq_lt(a@.skip(i as int), b@.skip(i as int)),
        decreases la - i,
    {
        let ca = a.get_char(i);
        let cb = b.get_char(i);
        assert(a@.skip(i as int)[0] == ca);
        assert(b@.skip(i as int)[0] == cb);
        if ca != cb {
            return ca < cb;
        }
        assert(a@.skip(i as int).drop_first() =~= a@.skip(i + 1));
        assert(b@.skip(i as int).drop_first() =~= b@.skip(i + 1));
        i = i + 1;
    }
    i == la && i < lb
}

/// The position of the last `'.'` in `name`, if there is one.
pub open spec fn last_dot(name: Seq<char>) -> Option<int>
    decreases name.len(),
{
    if name.len() == 0 {
        None
    } else if name.last() == '.' {
        Some(name.len() - 1)
    } else {
        last_dot(name.drop_last())
    }
}

/// The extension of a file name: what follows its last dot, provided the dot
/// is not the name's first character. `"photo.JPG"` has extension `"JPG"`;
/// `".jpg"` and `"photo"` have none.
pub open spec fn extension(name: Seq<char>) -> Option<Seq<char>> {
    match last_dot(name) {
        Some(i) => if i > 0 {
            Some(name.subrange(i + 1, name.len() as int))
        } else {
            None
        },
        None => None,
    }
}

/// Whether `c` is the lower-case ASCII letter `lower` or its upper-case form.
pub open spec fn same_letter(c: char, lower: char) -> bool {
    c == lower || ('a' <= lower && lower <= 'z' && (c as u32) + 32 == (lower as u32))
}

/// Whether `text` spells `word` (given in lower case) ignoring ASCII case.
pub open spec fn equals_ignoring_case(text: Seq<char>, word: Seq<char>) -> bool {
    &&& text.len() == word.len()
    &&& forall|i: int| 0 <= i < text.len() ==> same_letter(#[trigger] text[i], word[i])
}

/// Whether an extension names a supported image format: `jpg`, `jpeg` or `png`
/// in any letter case.
pub open spec fn is_image_extension(ext: Seq<char>) -> bool {
    ||| equals_ignoring_case(ext, seq!['j', 'p', 'g'])
    ||| equals_ignoring_case(ext, seq!['j', 'p', 'e', 'g'])
    ||| equals_ignoring_case(ext, seq!['p', 'n', 'g'])
}

/// Whether a file name has a supported image extension.
pub open spec fn is_image_name(name: Seq<char>) -> bool {
    match extension(name) {
        Some(ext) => is_image_extension(ext),
        None => false,
    }
}

fn letter_matches(c: char, lower: char) -> (r: bool)
    ensures
        r == same_letter(c, lower),
{
    c == lower || ('a' <= lower && lower <= 'z' && (c as u32) + 32 == (lower as u32))
}

/// Whether the characters of `name` from `start` on spell `word` ignoring case.
fn tail_matches(name: &str, start: usize, len: usize, word: &[char]) -> (r: bool)
    requires
        start <= len,
        len == name@.len(),
    ensures
        r == equals_ignoring_case(name@.subrange(start as int, len as int), word@),
{
    let n = word.len();
    if len - start != n {
        return false;
    }
    let mut i: usize = 0;
    while i < n
        invariant
            start <= len,
            len == name@.len(),
            n == word@.len(),
            len - start == n,
            i <= n,
            forall|j: int|
                0 <= j < i ==> same_letter(name@.subrange(start as int, len as int)[j], word@[j]),
        decreases n - i,
    {
        if !letter_matches(name.get_char(start + i), word[i]) {
            assert(name@.subrange(start as int, len as int)[i as int] == name@[start + i]);
            return false;
        }
        assert(name@.subrange(start as int, len as int)[i as int] == name@[start + i]);
        i = i + 1;
    }
    true
}

/// Whether a file name has a supported image extension (`jpg`, `jpeg`, `png`,
/// in any letter case).
pub fn is_image_file_name(name: &str) -> (r: bool)
    ensures
        r == is_image_name(name@),
{
    let len = name.unicode_len();
    let mut i: usize = len;
    assert(name@.subrange(0, len as int) =~= name@);
    // Search backwards for the last dot.
    while i > 0
        invariant
            len == name@.len(),
            i <= len,
            last_dot(name@) == last_dot(name@.subrange(0, i as int)),
        decreases i,
    {
        assert(name@.subrange(0, i as int).last() == name@[i - 1]);
        assert(name@.subrange(0, i as int).drop_last() =~= name@.subrange(0, i - 1));
        if name.get_char(i - 1) == '.' {
            if i - 1 == 0 {
                return false;
            }
            let jpg = ['j', 'p', 'g'];
            let jpeg = ['j', 'p', 'e', 'g'];
            let png = ['p', 'n', 'g'];
            assert(jpg@ =~= seq!['j', 'p', 'g']);
            assert(jpeg@ =~= seq!['j', 'p', 'e', 'g']);
            assert(png@ =~= seq!['p', 'n', 'g']);
            return tail_matches(name, i, len, jpg.as_slice()) || tail_matches(
                name,
                i,
                len,
                jpeg.as_slice(),
            ) || tail_matches(name, i, len, png.as_slice());
        }
        i = i - 1;
    }
    assert(name@.subrange(0, 0) =~= Seq::<char>::empty());
    false
}

// ── Paths ──────────────────────────────────────────────────────────────────
//
// Two paths name the same file when they have the same components: whether
// they start at the root, whether a relative path starts with `.`, and the
// sequence of names in between. Repeated separators, `.` components after the
// start and a trailing separator make no difference. `normal_form` spells a
// path's components out in one canonical way, so that equal paths have equal
// normal forms.

/// Whether a path starts at the root.
pub open spec fn is_rooted(p: Seq<char>) -> bool {
    p.len() > 0 && p[0] == '/'
}

/// Whether a relative path starts with a `.` component.
pub open spec fn starts_at_cur_dir(p: Seq<char>) -> bool {
    !is_rooted(p) && p.len() > 0 && p[0] == '.' && (p.len() == 1 || p[1] == '/')
}

/// The length of the run of non-separator characters that starts `s`.
pub open spec fn segment_len(s: Seq<char>) -> int
    decreases s.len(),
{
    if s.len() == 0 || s[0] == '/' {
        0
    } else {
        1 + segment_len(s.drop_first())
    }
}

/// A path segment is a non-empty run of non-separator characters that ends at
/// a separator or at the end.
pub proof fn lemma_segment_len(s: Seq<char>)
    ensures
        0 <= segment_len(s) <= s.len(),
        s.len() > 0 && s[0] != '/' ==> segment_len(s) > 0,
        forall|i: int| 0 <= i < segment_len(s) ==> #[trigger] s[i] != '/',
        segment_len(s) < s.len() ==> s[segment_len(s)] == '/',
    decreases s.len(),
{
    if s.len() > 0 && s[0] != '/' {
        lemma_segment_len(s.drop_first());
        assert forall|i: int| 0 <= i < segment_len(s) implies #[trigger] s[i] != '/' by {
            if i > 0 {
                assert(s[i] == s.drop_first()[i - 1]);
            }
        }
        if segment_len(s) < s.len() {
            assert(s[segment_len(s)] == s.drop_first()[segment_len(s) - 1]);
        }
    }
}

/// The names of a path, in order: its segments other than empty ones and `.`.
pub open spec fn path_parts(s: Seq<char>) -> Seq<Seq<char>>
    decreases s.len(),
{
    if s.len() == 0 {
        Seq::empty()
    } else if s[0] == '/' {
        path_parts(s.drop_first())
    } else {
        let n = segment_len(s);
        proof {
            lemma_segment_len(s);
        }
        if s.take(n) == seq!['.'] {
            path_parts(s.skip(n))
        } else {
            seq![s.take(n)] + path_parts(s.skip(n))
        }
    }
}

/// Names joined with single separators.
pub open spec fn joined(parts: Seq<Seq<char>>) -> Seq<char>
    decreases parts.len(),
{
    if parts.len() == 0 {
        Seq::empty()
    } else if parts.len() == 1 {
        parts[0]
    } else {
        joined(parts.drop_last()) + seq!['/'] + parts.last()
    }
}

/// The canonical spelling of a path's components: a leading `/` for a rooted
/// path, a leading `.` for a relative path that starts with `.`, then the
/// names joined with single separators.
pub open spec fn normal_form(p: Seq<char>) -> Seq<char> {
    let parts = path_parts(p);
    if is_rooted(p) {
        seq!['/'] + joined(parts)
    } else if starts_at_cur_dir(p) {
        if parts.len() == 0 {
            seq!['.']
        } else {
            seq!['.', '/'] + joined(parts)
        }
    } else {
        joined(parts)
    }
}

/// The half-open character ranges of the names of `path`, in order.
fn part_spans(path: &str) -> (spans: Vec<(usize, usize)>)
    ensures
        spans@.len() == path_parts(path@).len(),
        forall|k: int|
            0 <= k < spans@.len() ==> {
                let (s, e) = #[trigger] spans@[k];
                &&& s <= e <= path@.len()
                &&& path@.subrange(s as int, e as int) == path_parts(path@)[k]
            },
{
    let len = path.unicode_len();
    let mut spans: Vec<(usize, usize)> = Vec::new();
    let mut i: usize = 0;
    assert(path@.skip(0) =~= path@);
    while i < len
        invariant
            len == path@.len(),
            i <= len,
            forall|k: int|
                0 <= k < spans@.len() ==> {
                    let (s, e) = #[trigger] spans@[k];
                    &&& s <= e <= path@.len()
                }
            ,
            path_parts(path@) =~= spans@.map_values(
                |se: (usize, usize)| path@.subrange(se.0 as int, se.1 as int),
            ) + path_parts(path@.skip(i as int)),
        decreases len - i,
    {
        let ghost rest = path@.skip(i as int);
        assert(rest[0] == path@[i as int]);
        if path.get_char(i) == '/' {
            assert(rest.drop_first() =~= path@.skip(i + 1));
            i = i + 1;
        } else {
            let mut j = i;
            proof {
                lemma_segment_len(rest);
            }
            while j < len && path.get_char(j) != '/'
                invariant
                    len == path@.len(),
                    i <= j <= len,
                    rest == path@.skip(i as int),
                    j - i <= segment_len(rest),
                    0 <= segment_len(rest) <= rest.len(),
                    forall|k: int| 0 <= k < segment_len(rest) ==> #[trigger] rest[k] != '/',
                    segment_len(rest) < rest.len() ==> rest[segment_len(rest)] == '/',
                decreases len - j,
            {
                assert(rest[j - i] == path@[j as int]);
                j = j + 1;
            }
            proof {
                if j < len {
                    assert(rest[j - i] == path@[j as int]);
                }
                assert(j - i == segment_len(rest));
                assert(rest.take(j - i) =~= path@.subrange(i as int, j as int));
                assert(rest.skip(j - i) =~= path@.skip(j as int));
            }
            let is_dot = j == i + 1 && path.get_char(i) == '.';
            proof {
                if j == i + 1 {
                    assert(rest.take(1) == seq![rest[0]]) by {
                        assert(rest.take(1) =~= seq![rest[0]]);
                    }
                }
                if rest.take(j - i) == seq!['.'] {
                    assert(rest.take(j - i).len() == 1);
                    assert(rest.take(j - i)[0] == rest[0]);
                }
                assert(is_dot == (rest.take(j - i) == seq!['.']));
            }
            if !is_dot {
                let ghost before = spans@;
                spans.push((i, j));
                proof {
                    let f = |se: (usize, usize)| path@.subrange(se.0 as int, se.1 as int);
                    assert(spans@.map_values(f) =~= before.map_values(f).push(
                        path@.subrange(i as int, j as int),
                    ));
                }
            }
            i = j;
        }
    }
    proof {
        let f = |se: (usize, usize)| path@.subrange(se.0 as int, se.1 as int);
        assert(path@.skip(len as int) =~= Seq::<char>::empty());
        assert(path_parts(path@) =~= spans@.map_values(f));
        assert forall|k: int| 0 <= k < spans@.len() implies {
            let (s, e) = #[trigger] spans@[k];
            &&& s <= e <= path@.len()
            &&& path@.subrange(s as int, e as int) == path_parts(path@)[k]
        } by {
            assert(spans@.map_values(f)[k] == f(spans@[k]));
        }
    }
    spans
}

/// The normal form of a path (see `normal_form`).
pub fn normal_path(path: &str) -> (out: String)
    ensures
        out@ == normal_form(path@),
{
    let len = path.unicode_len();
    let spans = part_spans(path);
    let ghost parts = path_parts(path@);
    proof {
        reveal_strlit("/");
        reveal_strlit("./");
        reveal_strlit(".");
        reveal_strlit("");
    }
    let rooted = len > 0 && path.get_char(0) == '/';
    let cur_dir = !rooted && len > 0 && path.get_char(0) == '.' && (len == 1 || path.get_char(1)
        == '/');
    if cur_dir && spans.len() == 0 {
        let out = String::from_str(".");
        assert(out@ =~= normal_form(path@));
        return out;
    }
    let mut out = if rooted {
        String::from_str("/")
    } else if cur_dir {
        String::from_str("./")
    } else {
        String::from_str("")
    };
    let ghost prefix = out@;
    let mut k: usize = 0;
    assert(parts.take(0) =~= Seq::<Seq<char>>::empty());
    assert(out@ =~= prefix + joined(parts.take(0)));
    while k < spans.len()
        invariant
            len == path@.len(),
            parts == path_parts(path@),
            spans@.len() == parts.len(),
            forall|m: int|
                0 <= m < spans@.len() ==> {
                    let (s, e) = #[trigger] spans@[m];
                    &&& s <= e <= path@.len()
                    &&& path@.subrange(s as int, e as int) == parts[m]
                },
            k <= spans@.len(),
            out@ == prefix + joined(parts.take(k as int)),
        decreases spans@.len() - k,
    {
        let (s, e) = spans[k];
        let ghost before = out@;
        proof {
            reveal_strlit("/");
        }
        if k > 0 {
            out.append("/");
        }
        out.append(path.substring_char(s, e));
        proof {
            let t = parts.take(k + 1);
            assert(t.drop_last() =~= parts.take(k as int));
            assert(t.last() == parts[k as int]);
            if k == 0 {
                assert(joined(t) == t[0]);
                assert(out@ =~= prefix + joined(t));
            } else {
                assert(joined(t) == joined(parts.take(k as int)) + seq!['/'] + parts[k as int]);
                assert(out@ =~= prefix + joined(t));
            }
        }
        k = k + 1;
    }
    proof {
        assert(parts.take(parts.len() as int) =~= parts);
        assert(out@ =~= normal_form(path@));
    }
    out
}

} // verus!
