//! Character-sequence primitives: substring search, equality, joining.
//!
//! All document-editing logic in this crate works over `Vec<char>` so that
//! contracts can speak directly about `Seq<char>` views of strings.
use vstd::prelude::*;
use vstd::string::StringExecFns;

verus! {

/// The needle occurs in the haystack starting at position `i`.
pub open spec fn match_at(hay: Seq<char>, needle: Seq<char>, i: int) -> bool {
    0 <= i && i + needle.len() <= hay.len() && hay.subrange(i, i + needle.len()) == needle
}

pub open spec fn contains_seq(hay: Seq<char>, needle: Seq<char>) -> bool {
    exists|i: int| match_at(hay, needle, i)
}

/// Position of the first occurrence of `needle` at or after `from`, if any.
pub open spec fn find_from(hay: Seq<char>, needle: Seq<char>, from: int) -> Option<int>
    decreases hay.len() - from + 1,
{
    if from < 0 || from + needle.len() > hay.len() {
        None
    } else if match_at(hay, needle, from) {
        Some(from)
    } else {
        find_from(hay, needle, from + 1)
    }
}

pub proof fn lemma_find_from_some(hay: Seq<char>, needle: Seq<char>, from: int, i: int)
    requires
        find_from(hay, needle, from) == Some(i),
    ensures
        match_at(hay, needle, i),
        from <= i,
        forall|k: int| from <= k < i ==> !match_at(hay, needle, k),
    decreases hay.len() - from + 1,
{
    if from < 0 || from + needle.len() > hay.len() {
    } else if match_at(hay, needle, from) {
    } else {
        lemma_find_from_some(hay, needle, from + 1, i);
    }
}

pub proof fn lemma_find_from_none(hay: Seq<char>, needle: Seq<char>, from: int)
    requires
        find_from(hay, needle, from) is None,
        0 <= from,
    ensures
        forall|k: int| from <= k ==> !match_at(hay, needle, k),
    decreases hay.len() - from + 1,
{
    if from + needle.len() > hay.len() {
        assert forall|k: int| from <= k implies !match_at(hay, needle, k) by {}
    } else if match_at(hay, needle, from) {
    } else {
        lemma_find_from_none(hay, needle, from + 1);
    }
}

/// Character-wise equality of two slices.
pub fn slice_eq(a: &[char], b: &[char]) -> (r: bool)
    ensures
        r == (a@ == b@),
{
    if a.len() != b.len() {
        return false;
    }
    let mut i: usize = 0;
    while i < a.len()
        invariant
            a@.len() == b@.len(),
            i <= a@.len(),
            forall|k: int| 0 <= k < i ==> a@[k] == b@[k],
        decreases a@.len() - i,
    {
        if a[i] != b[i] {
            return false;
        }
        i = i + 1;
    }
    proof {
        assert(a@ =~= b@);
    }
    true
}

/// The needle occurs in the haystack at exactly position `i`.
pub fn match_at_exec(hay: &[char], needle: &[char], i: usize) -> (r: bool)
    requires
        i + needle@.len() <= hay@.len(),
    ensures
        r == match_at(hay@, needle@, i as int),
{
    let hay_len = hay.len();
    let mut j: usize = 0;
    while j < needle.len()
        invariant
            hay_len == hay@.len(),
            i + needle@.len() <= hay@.len(),
            j <= needle@.len(),
            forall|k: int| 0 <= k < j ==> hay@[i + k] == needle@[k],
        decreases needle@.len() - j,
    {
        if hay[i + j] != needle[j] {
            proof {
                assert(hay@.subrange(i as int, i + needle@.len())[j as int] == hay@[i + j]);
            }
            return false;
        }
        j = j + 1;
    }
    proof {
        assert(hay@.subrange(i as int, i + needle@.len()) =~= needle@);
    }
    true
}

/// First occurrence of `needle` in `hay` at or after `from`.
pub fn find_slice(hay: &[char], needle: &[char], from: usize) -> (r: Option<usize>)
    requires
        from <= hay@.len(),
    ensures
        match r {
            Some(i) => find_from(hay@, needle@, from as int) == Some(i as int),
            None => find_from(hay@, needle@, from as int) is None,
        },
{
    if needle.len() > hay.len() || from > hay.len() - needle.len() {
        return None;
    }
    let mut i: usize = from;
    while i <= hay.len() - needle.len()
        invariant
            needle@.len() <= hay@.len(),
            from <= i <= hay@.len() - needle@.len() + 1,
            find_from(hay@, needle@, from as int) == find_from(hay@, needle@, i as int),
        decreases hay@.len() - needle@.len() - i + 1,
    {
        if match_at_exec(hay, needle, i) {
            return Some(i);
        }
        if needle.len() == 0 {
            proof {
                assert(hay@.subrange(i as int, i as int) =~= needle@);
            }
        }
        i = i + 1;
    }
    None
}

pub fn contains_slice(hay: &[char], needle: &[char]) -> (r: bool)
    ensures
        r == contains_seq(hay@, needle@),
{
    let r = find_slice(hay, needle, 0);
    proof {
        match r {
            Some(i) => {
                lemma_find_from_some(hay@, needle@, 0, i as int);
            },
            None => {
                lemma_find_from_none(hay@, needle@, 0);
                assert forall|k: int| !match_at(hay@, needle@, k) implies true by {}
            },
        }
    }
    match r {
        Some(_) => true,
        None => false,
    }
}

/// Relies on `str::chars` collected into a vector: the characters of the
/// string, in order.
#[verifier::external_body]
pub fn str_to_chars(s: &str) -> (r: Vec<char>)
    ensures
        r@ == s@,
{
    s.chars().collect()
}

/// Relies on `String::from_iter` over chars: builds the string holding
/// exactly the given characters, in order.
#[verifier::external_body]
pub fn chars_to_string(v: &Vec<char>) -> (r: String)
    ensures
        r@ == v@,
{
    v.iter().collect()
}

/// Relies on `str`'s `PartialEq`: strings are equal exactly when their
/// character sequences are.
#[verifier::external_body]
pub fn str_eq(a: &str, b: &str) -> (r: bool)
    ensures
        r == (a@ == b@),
{
    a == b
}

/// Lexicographic order on character sequences, by code point; ties broken by
/// length (a proper prefix comes first).
pub open spec fn lex_le(a: Seq<char>, b: Seq<char>) -> bool
    decreases a.len(),
{
    if a.len() == 0 {
        true
    } else if b.len() == 0 {
        false
    } else if a[0] != b[0] {
        (a[0] as u32) < (b[0] as u32)
    } else {
        lex_le(a.drop_first(), b.drop_first())
    }
}

pub proof fn lemma_lex_le_total(a: Seq<char>, b: Seq<char>)
    ensures
        lex_le(a, b) || lex_le(b, a),
    decreases a.len(),
{
    if a.len() > 0 && b.len() > 0 {
        if a[0] == b[0] {
            lemma_lex_le_total(a.drop_first(), b.drop_first());
        } else {
            assert((a[0] as u32) != (b[0] as u32)) by {
                vstd::utf8::char_u32_cast(a[0], a[0] as u32);
                vstd::utf8::char_u32_cast(b[0], b[0] as u32);
            }
        }
    }
}

pub proof fn lemma_lex_le_trans(a: Seq<char>, b: Seq<char>, c: Seq<char>)
    requires
        lex_le(a, b),
        lex_le(b, c),
    ensures
        lex_le(a, c),
    decreases a.len(),
{
    if a.len() > 0 && b.len() > 0 && c.len() > 0 && a[0] == b[0] && b[0] == c[0] {
        lemma_lex_le_trans(a.drop_first(), b.drop_first(), c.drop_first());
    }
}

proof fn lemma_lex_le_skip(a: Seq<char>, b: Seq<char>, i: int)
    requires
        0 <= i <= a.len(),
        i <= b.len(),
        forall|k: int| 0 <= k < i ==> a[k] == b[k],
    ensures
        lex_le(a, b) == lex_le(a.skip(i), b.skip(i)),
    decreases i,
{
    if i > 0 {
        assert(a.len() > 0 && b.len() > 0 && a[0] == b[0]);
        assert(forall|k: int| 0 <= k < i - 1 ==> a.drop_first()[k] == b.drop_first()[k]);
        lemma_lex_le_skip(a.drop_first(), b.drop_first(), i - 1);
        assert(a.drop_first().skip(i - 1) =~= a.skip(i));
        assert(b.drop_first().skip(i - 1) =~= b.skip(i));
    } else {
        assert(a.skip(0) =~= a);
        assert(b.skip(0) =~= b);
    }
}

/// Compares two strings in the order of [`lex_le`].
pub fn str_le(a: &str, b: &str) -> (r: bool)
    ensures
        r == lex_le(a@, b@),
{
    let av = str_to_chars(a);
    let bv = str_to_chars(b);
    let mut i: usize = 0;
    while i < av.len() && i < bv.len()
        invariant
            av@ == a@,
            bv@ == b@,
            i <= av@.len(),
            i <= bv@.len(),
            forall|k: int| 0 <= k < i ==> av@[k] == bv@[k],
        decreases av@.len() - i,
    {
        if av[i] != bv[i] {
            proof {
                lemma_lex_le_skip(a@, b@, i as int);
                assert(a@.skip(i as int)[0] == a@[i as int]);
                assert(b@.skip(i as int)[0] == b@[i as int]);
            }
            return (av[i] as u32) < (bv[i] as u32);
        }
        i = i + 1;
    }
    proof {
        lemma_lex_le_skip(a@, b@, i as int);
        if i == av@.len() {
            assert(a@.skip(i as int).len() == 0);
        } else {
            assert(b@.skip(i as int).len() == 0);
            assert(a@.skip(i as int).len() > 0);
        }
    }
    av.len() <= bv.len()
}

/// The given sequences joined by a separator.
pub open spec fn join_with(parts: Seq<Seq<char>>, sep: Seq<char>) -> Seq<char>
    decreases parts.len(),
{
    if parts.len() == 0 {
        Seq::empty()
    } else if parts.len() == 1 {
        parts[0]
    } else {
        parts[0] + sep + join_with(parts.drop_first(), sep)
    }
}

pub proof fn lemma_join_push(parts: Seq<Seq<char>>, x: Seq<char>, sep: Seq<char>)
    ensures
        join_with(parts.push(x), sep) == if parts.len() == 0 {
            x
        } else {
            join_with(parts, sep) + sep + x
        },
    decreases parts.len(),
{
    let whole = parts.push(x);
    if parts.len() == 0 {
        assert(whole[0] == x);
    } else {
        assert(whole[0] == parts[0]);
        assert(whole.drop_first() =~= parts.drop_first().push(x));
        lemma_join_push(parts.drop_first(), x, sep);
        if parts.len() == 1 {
            assert(join_with(whole, sep) =~= join_with(parts, sep) + sep + x);
        } else {
            assert(join_with(whole, sep) == parts[0] + sep + join_with(
                parts.drop_first().push(x),
                sep,
            ));
            assert(parts[0] + sep + (join_with(parts.drop_first(), sep) + sep + x) =~= (parts[0]
                + sep + join_with(parts.drop_first(), sep)) + sep + x);
        }
    }
}

/// A well-formed line decomposition: the lines joined by newlines give the
/// text back, and no line holds a newline itself.
pub open spec fn valid_split(ls: Seq<Seq<char>>, s: Seq<char>) -> bool {
    &&& ls.len() >= 1
    &&& forall|k: int| 0 <= k < ls.len() ==> !(#[trigger] ls[k]).contains('\n')
    &&& join_with(ls, seq!['\n']) == s
}

/// A text has exactly one well-formed line decomposition.
pub proof fn lemma_valid_split_unique(ls1: Seq<Seq<char>>, ls2: Seq<Seq<char>>, s: Seq<char>)
    requires
        valid_split(ls1, s),
        valid_split(ls2, s),
    ensures
        ls1 == ls2,
    decreases ls1.len(),
{
    let nl = seq!['\n'];
    if ls1.len() == 1 && ls2.len() == 1 {
        assert(ls1 =~= ls2);
    } else if ls1.len() == 1 {
        assert(join_with(ls2, nl) == ls2[0] + nl + join_with(ls2.drop_first(), nl));
        assert(s[ls2[0].len() as int] == '\n');
        assert(ls1[0].contains('\n')) by {
            assert(ls1[0][ls2[0].len() as int] == '\n');
        }
        assert(false);
    } else if ls2.len() == 1 {
        assert(join_with(ls1, nl) == ls1[0] + nl + join_with(ls1.drop_first(), nl));
        assert(s[ls1[0].len() as int] == '\n');
        assert(ls2[0].contains('\n')) by {
            assert(ls2[0][ls1[0].len() as int] == '\n');
        }
        assert(false);
    } else {
        assert(join_with(ls1, nl) == ls1[0] + nl + join_with(ls1.drop_first(), nl));
        assert(join_with(ls2, nl) == ls2[0] + nl + join_with(ls2.drop_first(), nl));
        let a = ls1[0].len() as int;
        let b = ls2[0].len() as int;
        if a < b {
            assert(s[a] == '\n');
            assert(ls2[0][a] == s[a]);
            assert(ls2[0].contains('\n'));
            assert(false);
        } else if b < a {
            assert(s[b] == '\n');
            assert(ls1[0][b] == s[b]);
            assert(ls1[0].contains('\n'));
            assert(false);
        } else {
            assert forall|k: int| 0 <= k < a implies ls1[0][k] == ls2[0][k] by {
                assert(ls1[0][k] == (ls1[0] + nl + join_with(ls1.drop_first(), nl))[k]);
                assert(ls2[0][k] == (ls2[0] + nl + join_with(ls2.drop_first(), nl))[k]);
            }
            assert(ls1[0] =~= ls2[0]);
            assert(join_with(ls1.drop_first(), nl) =~= join_with(ls2.drop_first(), nl)) by {
                assert forall|k: int|
                    0 <= k < join_with(ls1.drop_first(), nl).len() implies join_with(
                    ls1.drop_first(),
                    nl,
                )[k] == join_with(ls2.drop_first(), nl)[k] by {
                    assert(join_with(ls1.drop_first(), nl)[k] == s[a + 1 + k]);
                    assert(join_with(ls2.drop_first(), nl)[k] == s[a + 1 + k]);
                }
            }
            lemma_valid_split_unique(
                ls1.drop_first(),
                ls2.drop_first(),
                join_with(ls1.drop_first(), nl),
            );
            assert(ls1.drop_first() == ls2.drop_first());
            assert forall|k: int| 0 <= k < ls1.len() implies ls1[k] == ls2[k] by {
                if k > 0 {
                    assert(ls1[k] == ls1.drop_first()[k - 1]);
                    assert(ls2[k] == ls2.drop_first()[k - 1]);
                }
            }
            assert(ls1 =~= ls2);
        }
    }
}

/// Splits a text into its lines.
pub fn split_lines(v: &[char]) -> (r: Vec<Vec<char>>)
    ensures
        valid_split(r.deep_view(), v@),
{
    let mut done: Vec<Vec<char>> = Vec::new();
    let mut cur: Vec<char> = Vec::new();
    proof {
        assert(done.deep_view().push(cur@) =~= Seq::<Seq<char>>::empty().push(cur@));
        assert(join_with(done.deep_view().push(cur@), seq!['\n']) =~= v@.take(0));
    }
    let mut i: usize = 0;
    while i < v.len()
        invariant
            i <= v@.len(),
            forall|k: int| 0 <= k < done.deep_view().len() ==> !(#[trigger] done.deep_view()[k]).contains('\n'),
            !cur@.contains('\n'),
            join_with(done.deep_view().push(cur@), seq!['\n']) == v@.take(i as int),
        decreases v@.len() - i,
    {
        let ghost old_done = done.deep_view();
        let ghost old_cur = cur@;
        let c = v[i];
        if c == '\n' {
            done.push(cur);
            cur = Vec::new();
            proof {
                assert(done.deep_view() =~= old_done.push(old_cur)) by {
                    assert forall|k: int|
                        0 <= k < done.deep_view().len() implies done.deep_view()[k] == old_done.push(
                        old_cur,
                    )[k] by {
                        assert(done.deep_view()[k] == done@[k]@);
                    }
                }
                lemma_join_push(old_done.push(old_cur), cur@, seq!['\n']);
                lemma_join_push(old_done, old_cur, seq!['\n']);
                if old_done.len() == 0 {
                    assert(join_with(done.deep_view().push(cur@), seq!['\n']) =~= v@.take(i + 1));
                } else {
                    assert(join_with(done.deep_view().push(cur@), seq!['\n']) =~= v@.take(i + 1));
                }
            }
        } else {
            cur.push(c);
            proof {
                lemma_join_push(old_done, cur@, seq!['\n']);
                lemma_join_push(old_done, old_cur, seq!['\n']);
                assert(cur@ == old_cur.push(c));
                if old_done.len() == 0 {
                    assert(join_with(old_done.push(cur@), seq!['\n']) =~= v@.take(i + 1));
                } else {
                    assert(join_with(old_done.push(cur@), seq!['\n']) =~= v@.take(i + 1));
                }
                assert(!cur@.contains('\n')) by {
                    assert forall|k: int| 0 <= k < cur@.len() implies cur@[k] != '\n' by {
                        if k < old_cur.len() {
                            assert(!old_cur.contains('\n'));
                            assert(old_cur[k] != '\n');
                        }
                    }
                }
            }
        }
        i = i + 1;
    }
    let ghost old_done = done.deep_view();
    let ghost old_cur = cur@;
    done.push(cur);
    proof {
        assert(done.deep_view() =~= old_done.push(old_cur)) by {
            assert forall|k: int|
                0 <= k < done.deep_view().len() implies done.deep_view()[k] == old_done.push(
                old_cur,
            )[k] by {
                assert(done.deep_view()[k] == done@[k]@);
            }
        }
        assert(v@.take(v@.len() as int) =~= v@);
    }
    done
}

/// Joins lines with newlines; the inverse of [`split_lines`].
pub fn join_lines(ls: &Vec<Vec<char>>) -> (r: Vec<char>)
    ensures
        r@ == join_with(ls.deep_view(), seq!['\n']),
{
    let mut r: Vec<char> = Vec::new();
    proof {
        assert(ls.deep_view().take(0) =~= Seq::<Seq<char>>::empty());
        assert(r@ =~= join_with(ls.deep_view().take(0), seq!['\n']));
    }
    let mut k: usize = 0;
    while k < ls.len()
        invariant
            k <= ls@.len(),
            r@ == join_with(ls.deep_view().take(k as int), seq!['\n']),
        decreases ls@.len() - k,
    {
        let ghost old_r = r@;
        if k > 0 {
            r.push('\n');
        }
        let line = &ls[k];
        let mut j: usize = 0;
        while j < line.len()
            invariant
                j <= line@.len(),
                line@ == ls@[k as int]@,
                k < ls@.len(),
                r@ == if k > 0 {
                    old_r.push('\n') + line@.take(j as int)
                } else {
                    old_r + line@.take(j as int)
                },
            decreases line@.len() - j,
        {
            r.push(line[j]);
            proof {
                assert(line@.take(j + 1) =~= line@.take(j as int).push(line@[j as int]));
                if k > 0 {
                    assert(old_r.push('\n') + line@.take(j + 1) =~= (old_r.push('\n')
                        + line@.take(j as int)).push(line@[j as int]));
                } else {
                    assert(old_r + line@.take(j + 1) =~= (old_r + line@.take(j as int)).push(
                        line@[j as int],
                    ));
                }
            }
            j = j + 1;
        }
        proof {
            lemma_join_push(ls.deep_view().take(k as int), ls.deep_view()[k as int], seq!['\n']);
            assert(ls.deep_view().take(k + 1) =~= ls.deep_view().take(k as int).push(
                ls.deep_view()[k as int],
            ));
            assert(line@.take(line@.len() as int) =~= line@);
            assert(ls.deep_view()[k as int] == ls@[k as int]@);
            if k > 0 {
                assert(r@ =~= join_with(ls.deep_view().take(k as int), seq!['\n']) + seq!['\n']
                    + ls.deep_view()[k as int]);
            } else {
                assert(r@ =~= ls.deep_view()[k as int]);
            }
        }
        k = k + 1;
    }
    proof {
        assert(ls.deep_view().take(ls@.len() as int) =~= ls.deep_view());
    }
    r
}

/// Appends the characters of `s` to `dst`.
pub fn push_str_chars(dst: &mut Vec<char>, s: &str)
    ensures
        final(dst)@ == old(dst)@ + s@,
{
    let cs = str_to_chars(s);
    let mut j: usize = 0;
    while j < cs.len()
        invariant
            cs@ == s@,
            j <= cs@.len(),
            dst@ == old(dst)@ + cs@.take(j as int),
        decreases cs@.len() - j,
    {
        dst.push(cs[j]);
        proof {
            assert(old(dst)@ + cs@.take(j + 1) =~= (old(dst)@ + cs@.take(j as int)).push(
                cs@[j as int],
            ));
        }
        j = j + 1;
    }
    proof {
        assert(cs@.take(cs@.len() as int) =~= cs@);
    }
}

/// Whether `p` is a prefix of `s`.
pub fn is_prefix(s: &str, p: &str) -> (r: bool)
    ensures
        r == (p@.len() <= s@.len() && s@.take(p@.len() as int) == p@),
{
    let sc = str_to_chars(s);
    let pc = str_to_chars(p);
    if pc.len() > sc.len() {
        return false;
    }
    let r = match_at_exec(sc.as_slice(), pc.as_slice(), 0);
    proof {
        assert(s@.take(p@.len() as int) =~= s@.subrange(0, p@.len() as int));
    }
    r
}

/// Copies one line of characters.
pub fn copy_line(v: &Vec<char>) -> (r: Vec<char>)
    ensures
        r@ == v@,
{
    let r = v.clone();
    proof {
        assert(r@ =~= v@);
    }
    r
}

/// Copies `v[a..b]`.
pub fn copy_range(v: &[char], a: usize, b: usize) -> (r: Vec<char>)
    requires
        a <= b <= v@.len(),
    ensures
        r@ == v@.subrange(a as int, b as int),
{
    let mut r: Vec<char> = Vec::new();
    let mut j: usize = a;
    while j < b
        invariant
            a <= j <= b <= v@.len(),
            r@ == v@.subrange(a as int, j as int),
        decreases b - j,
    {
        r.push(v[j]);
        proof {
            assert(v@.subrange(a as int, j + 1) =~= v@.subrange(a as int, j as int).push(
                v@[j as int],
            ));
        }
        j = j + 1;
    }
    r
}

} // verus!
