//! Targeted, non-destructive edits of the raw configuration text: everything
//! the edit does not touch is preserved byte for byte — comments, blank-line
//! grouping and key order included.
use vstd::prelude::*;

use crate::config::{RepoType, Repository};
use crate::text::{
    chars_to_string, copy_range, find_from, find_slice, join_lines, join_with,
    lemma_find_from_some, match_at, match_at_exec, push_str_chars, split_lines, str_to_chars,
    valid_split,
};

verus! {

/// A fault while editing the document; the text is left unchanged.
#[derive(Debug, PartialEq, Eq, Structural, Clone, Copy)]
pub enum UpdateError {
    ChartNotFound,
    VersionNotFound,
    CrossedBoundary,
}

/// The fields a freshly added chart entry is written with.
pub struct ChartConfig {
    pub name: String,
    pub repo_name: String,
    pub namespace: String,
    pub version: Option<String>,
    pub chart_path: Option<String>,
    pub comment: Option<String>,
}

/// Marker type grouping the document-editing operations.
pub struct ConfigUpdater;

/// The textual block a repository is inserted as.
pub open spec fn repo_block(name: Seq<char>, url: Seq<char>, rt: RepoType) -> Seq<char> {
    "\n  - name: "@ + name + "\n    url: "@ + url + if rt is Git {
        "\n    type: git"@
    } else if rt is Oci {
        "\n    type: oci"@
    } else {
        Seq::empty()
    }
}

/// The textual block a chart is inserted as.
pub open spec fn chart_block(c: &ChartConfig) -> Seq<char> {
    "\n  - name: "@ + c.name@ + "\n    repo_name: "@ + c.repo_name@ + "\n    namespace: "@
        + c.namespace@ + (match c.version {
        Some(v) => "\n    version: "@ + v@,
        None => Seq::empty(),
    }) + (match c.chart_path {
        Some(p) => "\n    chart_path: "@ + p@,
        None => Seq::empty(),
    }) + (match c.comment {
        Some(m) => "\n    comment: "@ + m@,
        None => Seq::empty(),
    })
}

/// Insertion of a block right after the first occurrence of the section key;
/// a missing key appends a new section at the end of the document.
pub open spec fn insert_after_key(content: Seq<char>, key: Seq<char>, block: Seq<char>) -> Seq<
    char,
> {
    match find_from(content, key, 0) {
        Some(i) => content.take(i + key.len()) + block + content.skip(i + key.len()),
        None => content + "\n"@ + key + block,
    }
}

fn splice_after(content: &Vec<char>, key: &str, block: &Vec<char>) -> (r: Vec<char>)
    ensures
        r@ == insert_after_key(content@, key@, block@),
{
    let keyc = str_to_chars(key);
    let _content_len = content.len();
    match find_slice(content.as_slice(), keyc.as_slice(), 0) {
        Some(i) => {
            proof {
                lemma_find_from_some(content@, keyc@, 0, i as int);
            }
            let cut = i + keyc.len();
            let mut pre = copy_range(content.as_slice(), 0, cut);
            let post = copy_range(content.as_slice(), cut, content.len());
            let mut j: usize = 0;
            while j < block.len()
                invariant
                    j <= block@.len(),
                    pre@ == content@.subrange(0, i as int + keyc@.len() as int) + block@.take(
                        j as int,
                    ),
                    i + keyc@.len() <= content@.len(),
                decreases block@.len() - j,
            {
                pre.push(block[j]);
                proof {
                    assert(content@.subrange(0, i as int + keyc@.len() as int) + block@.take(j + 1)
                        =~= (content@.subrange(0, i as int + keyc@.len() as int) + block@.take(
                        j as int,
                    )).push(block@[j as int]));
                }
                j = j + 1;
            }
            let mut k: usize = 0;
            while k < post.len()
                invariant
                    k <= post@.len(),
                    post@ == content@.subrange(
                        i as int + keyc@.len() as int,
                        content@.len() as int,
                    ),
                    pre@ == content@.subrange(0, i as int + keyc@.len() as int) + block@
                        + post@.take(k as int),
                    i + keyc@.len() <= content@.len(),
                decreases post@.len() - k,
            {
                pre.push(post[k]);
                proof {
                    assert(content@.subrange(0, i as int + keyc@.len() as int) + block@
                        + post@.take(k + 1) =~= (content@.subrange(
                        0,
                        i as int + keyc@.len() as int,
                    ) + block@ + post@.take(k as int)).push(post@[k as int]));
                }
                k = k + 1;
            }
            proof {
                assert(block@.take(block@.len() as int) =~= block@);
                assert(post@.take(post@.len() as int) =~= post@);
                assert(pre@ =~= content@.take(i + keyc@.len() as int) + block@ + content@.skip(
                    i + keyc@.len() as int,
                ));
            }
            pre
        },
        None => {
            let mut r = copy_range(content.as_slice(), 0, content.len());
            proof {
                assert(r@ =~= content@);
            }
            push_str_chars(&mut r, "\n");
            push_str_chars(&mut r, key);
            let mut j: usize = 0;
            let ghost base = r@;
            while j < block.len()
                invariant
                    j <= block@.len(),
                    r@ == base + block@.take(j as int),
                decreases block@.len() - j,
            {
                r.push(block[j]);
                proof {
                    assert(base + block@.take(j + 1) =~= (base + block@.take(j as int)).push(
                        block@[j as int],
                    ));
                }
                j = j + 1;
            }
            proof {
                assert(block@.take(block@.len() as int) =~= block@);
                assert(r@ =~= content@ + "\n"@ + key@ + block@);
            }
            r
        },
    }
}

impl ConfigUpdater {
    /// Inserts a repository block right after the first `repositories:` key,
    /// so the new entry appears as the first item of the section; appends the
    /// section when the key is missing. Everything else is unchanged.
    pub fn add_repository(content: &str, r: &Repository) -> (out: String)
        ensures
            out@ == insert_after_key(
                content@,
                "repositories:"@,
                repo_block(r.name@, r.url@, r.repo_type),
            ),
    {
        let mut block: Vec<char> = Vec::new();
        push_str_chars(&mut block, "\n  - name: ");
        push_str_chars(&mut block, r.name.as_str());
        push_str_chars(&mut block, "\n    url: ");
        push_str_chars(&mut block, r.url.as_str());
        match r.repo_type {
            RepoType::Git => {
                push_str_chars(&mut block, "\n    type: git");
            },
            RepoType::Oci => {
                push_str_chars(&mut block, "\n    type: oci");
            },
            RepoType::Helm => {},
        }
        proof {
            assert(block@ =~= repo_block(r.name@, r.url@, r.repo_type));
        }
        let cv = str_to_chars(content);
        let out = splice_after(&cv, "repositories:", &block);
        chars_to_string(&out)
    }

    /// Inserts a chart block right after the first `charts:` key, so the new
    /// entry appears as the first item of the section; appends the section
    /// when the key is missing. Everything else is unchanged.
    pub fn add_chart(content: &str, c: &ChartConfig) -> (out: String)
        ensures
            out@ == insert_after_key(content@, "charts:"@, chart_block(c)),
    {
        let mut block: Vec<char> = Vec::new();
        push_str_chars(&mut block, "\n  - name: ");
        push_str_chars(&mut block, c.name.as_str());
        push_str_chars(&mut block, "\n    repo_name: ");
        push_str_chars(&mut block, c.repo_name.as_str());
        push_str_chars(&mut block, "\n    namespace: ");
        push_str_chars(&mut block, c.namespace.as_str());
        match &c.version {
            Some(v) => {
                push_str_chars(&mut block, "\n    version: ");
                push_str_chars(&mut block, v.as_str());
            },
            None => {},
        }
        match &c.chart_path {
            Some(p) => {
                push_str_chars(&mut block, "\n    chart_path: ");
                push_str_chars(&mut block, p.as_str());
            },
            None => {},
        }
        match &c.comment {
            Some(m) => {
                push_str_chars(&mut block, "\n    comment: ");
                push_str_chars(&mut block, m.as_str());
            },
            None => {},
        }
        proof {
            assert(block@ =~= chart_block(c));
        }
        let cv = str_to_chars(content);
        let out = splice_after(&cv, "charts:", &block);
        chars_to_string(&out)
    }
}

/// First position at or after `i` that holds neither a space nor a tab.
pub open spec fn skip_ws(line: Seq<char>, i: int) -> int
    decreases line.len() - i,
{
    if i < 0 || i >= line.len() {
        i
    } else if line[i] == ' ' || line[i] == '\t' {
        skip_ws(line, i + 1)
    } else {
        i
    }
}

proof fn lemma_skip_ws_bounds(line: Seq<char>, i: int)
    requires
        0 <= i <= line.len(),
    ensures
        i <= skip_ws(line, i) <= line.len(),
    decreases line.len() - i,
{
    if i < line.len() && (line[i] == ' ' || line[i] == '\t') {
        lemma_skip_ws_bounds(line, i + 1);
    }
}

fn skip_ws_exec(line: &[char], i: usize) -> (r: usize)
    requires
        i <= line@.len(),
    ensures
        r as int == skip_ws(line@, i as int),
        i <= r <= line@.len(),
{
    let mut k: usize = i;
    while k < line.len()
        invariant
            i <= k <= line@.len(),
            skip_ws(line@, i as int) == skip_ws(line@, k as int),
        decreases line@.len() - k,
    {
        let c = line[k];
        if c == ' ' || c == '\t' {
            k = k + 1;
        } else {
            return k;
        }
    }
    k
}

/// The position after the leading whitespace and an optional `-` list marker
/// with its own trailing whitespace.
pub open spec fn after_marker(line: Seq<char>) -> int {
    let a = skip_ws(line, 0);
    if a < line.len() && line[a] == '-' {
        skip_ws(line, a + 1)
    } else {
        a
    }
}

fn after_marker_exec(line: &[char]) -> (r: usize)
    ensures
        r as int == after_marker(line@),
        r <= line@.len(),
{
    let a = skip_ws_exec(line, 0);
    if a < line.len() && line[a] == '-' {
        skip_ws_exec(line, a + 1)
    } else {
        a
    }
}

/// The line declares the chart's identity: optional list marker, `name:`,
/// then exactly the given name, then only trailing whitespace.
pub open spec fn is_name_line(line: Seq<char>, name: Seq<char>) -> bool {
    let b = after_marker(line);
    let c = skip_ws(line, b + "name:"@.len());
    &&& match_at(line, "name:"@, b)
    &&& match_at(line, name, c)
    &&& skip_ws(line, c + name.len()) == line.len()
}

/// The line begins (after an optional list marker) with a `name:` field: the
/// boundary marker of another item.
pub open spec fn is_name_marker_line(line: Seq<char>) -> bool {
    match_at(line, "name:"@, after_marker(line))
}

fn is_name_marker_exec(line: &[char]) -> (r: bool)
    ensures
        r == is_name_marker_line(line@),
{
    let b = after_marker_exec(line);
    let key = str_to_chars("name:");
    if key.len() > line.len() - b {
        proof {
            assert(!match_at(line@, "name:"@, b as int));
        }
        return false;
    }
    match_at_exec(line, key.as_slice(), b)
}

fn is_name_line_exec(line: &[char], name: &[char]) -> (r: bool)
    ensures
        r == is_name_line(line@, name@),
{
    let b = after_marker_exec(line);
    let key = str_to_chars("name:");
    if key.len() > line.len() - b {
        proof {
            assert(!match_at(line@, "name:"@, b as int));
        }
        return false;
    }
    if !match_at_exec(line, key.as_slice(), b) {
        return false;
    }
    let c = skip_ws_exec(line, b + key.len());
    if name.len() > line.len() - c {
        proof {
            assert(!match_at(line@, name@, c as int));
        }
        return false;
    }
    if !match_at_exec(line, name, c) {
        return false;
    }
    let e = skip_ws_exec(line, c + name.len());
    e == line.len()
}

/// Where the version value begins on a `version:` line.
pub open spec fn version_value_start(line: Seq<char>) -> int {
    skip_ws(line, skip_ws(line, 0) + "version:"@.len())
}

/// The line is a `version:` field with a non-empty value.
pub open spec fn is_version_line(line: Seq<char>) -> bool {
    &&& match_at(line, "version:"@, skip_ws(line, 0))
    &&& version_value_start(line) < line.len()
}

/// End of the whitespace-free value run that starts at `k`.
pub open spec fn value_end(line: Seq<char>, k: int) -> int
    decreases line.len() - k,
{
    if k < 0 || k >= line.len() {
        k
    } else if line[k] == ' ' || line[k] == '\t' {
        k
    } else {
        value_end(line, k + 1)
    }
}

proof fn lemma_value_end_bounds(line: Seq<char>, k: int)
    requires
        0 <= k <= line.len(),
    ensures
        k <= value_end(line, k) <= line.len(),
    decreases line.len() - k,
{
    if k < line.len() && !(line[k] == ' ' || line[k] == '\t') {
        lemma_value_end_bounds(line, k + 1);
    }
}

fn value_end_exec(line: &[char], k: usize) -> (r: usize)
    requires
        k <= line@.len(),
    ensures
        r as int == value_end(line@, k as int),
        k <= r <= line@.len(),
{
    let mut j: usize = k;
    while j < line.len()
        invariant
            k <= j <= line@.len(),
            value_end(line@, k as int) == value_end(line@, j as int),
        decreases line@.len() - j,
    {
        let c = line[j];
        if c == ' ' || c == '\t' {
            return j;
        }
        j = j + 1;
    }
    j
}

fn is_version_line_exec(line: &[char]) -> (r: bool)
    ensures
        r == is_version_line(line@),
{
    let a = skip_ws_exec(line, 0);
    let key = str_to_chars("version:");
    if key.len() > line.len() - a {
        proof {
            assert(!match_at(line@, "version:"@, a as int));
        }
        return false;
    }
    if !match_at_exec(line, key.as_slice(), a) {
        return false;
    }
    let v = skip_ws_exec(line, a + key.len());
    v < line.len()
}

/// The `version:` line with only its value span replaced.
pub open spec fn replaced_version_line(line: Seq<char>, ver: Seq<char>) -> Seq<char> {
    line.take(version_value_start(line)) + ver + line.skip(
        value_end(line, version_value_start(line)),
    )
}

fn replaced_version_line_exec(line: &[char], ver: &str) -> (r: Vec<char>)
    requires
        is_version_line(line@),
    ensures
        r@ == replaced_version_line(line@, ver@),
{
    let _line_len = line.len();
    let a = skip_ws_exec(line, 0);
    let key = str_to_chars("version:");
    proof {
        assert(a + key@.len() <= line@.len()) by {
            assert(match_at(line@, "version:"@, a as int));
        }
    }
    let vs = skip_ws_exec(line, a + key.len());
    let ve = value_end_exec(line, vs);
    let mut r = copy_range(line, 0, vs);
    proof {
        assert(r@ =~= line@.take(vs as int));
    }
    push_str_chars(&mut r, ver);
    let post = copy_range(line, ve, line.len());
    let mut k: usize = 0;
    let ghost base = r@;
    while k < post.len()
        invariant
            k <= post@.len(),
            ve <= line@.len(),
            post@ == line@.subrange(ve as int, line@.len() as int),
            r@ == base + post@.take(k as int),
        decreases post@.len() - k,
    {
        r.push(post[k]);
        proof {
            assert(base + post@.take(k + 1) =~= (base + post@.take(k as int)).push(
                post@[k as int],
            ));
        }
        k = k + 1;
    }
    proof {
        assert(post@.take(post@.len() as int) =~= post@);
        assert(r@ =~= replaced_version_line(line@, ver@));
    }
    r
}

/// First line at or after `from` that declares the chart's identity.
pub open spec fn first_name_line(ls: Seq<Seq<char>>, name: Seq<char>, from: int) -> Option<int>
    decreases ls.len() - from + 1,
{
    if from < 0 || from >= ls.len() {
        None
    } else if is_name_line(ls[from], name) {
        Some(from)
    } else {
        first_name_line(ls, name, from + 1)
    }
}

/// First `version:` line at or after `from`.
pub open spec fn first_version_line(ls: Seq<Seq<char>>, from: int) -> Option<int>
    decreases ls.len() - from + 1,
{
    if from < 0 || from >= ls.len() {
        None
    } else if is_version_line(ls[from]) {
        Some(from)
    } else {
        first_version_line(ls, from + 1)
    }
}

/// Some line strictly between `a` and `b` starts another item's `name:`.
pub open spec fn marker_between(ls: Seq<Seq<char>>, a: int, b: int) -> bool {
    exists|k: int| a < k < b && is_name_marker_line(#[trigger] ls[k])
}

/// What replacing a chart's version does to the lines of the document.
pub open spec fn replace_spec(ls: Seq<Seq<char>>, chart: Seq<char>, ver: Seq<char>) -> Result<
    Seq<Seq<char>>,
    UpdateError,
> {
    match first_name_line(ls, chart, 0) {
        None => Err(UpdateError::ChartNotFound),
        Some(ni) => match first_version_line(ls, ni + 1) {
            None => Err(UpdateError::VersionNotFound),
            Some(vi) => if marker_between(ls, ni, vi) {
                Err(UpdateError::CrossedBoundary)
            } else {
                Ok(ls.update(vi, replaced_version_line(ls[vi], ver)))
            },
        },
    }
}

fn find_name_line(ls: &Vec<Vec<char>>, name: &[char], from: usize) -> (r: Option<usize>)
    requires
        from <= ls@.len(),
    ensures
        match r {
            Some(i) => first_name_line(ls.deep_view(), name@, from as int) == Some(i as int)
                && from <= i < ls@.len(),
            None => first_name_line(ls.deep_view(), name@, from as int) is None,
        },
{
    let ghost dv = ls.deep_view();
    let mut i: usize = from;
    while i < ls.len()
        invariant
            dv == ls.deep_view(),
            from <= i <= ls@.len(),
            first_name_line(dv, name@, from as int) == first_name_line(dv, name@, i as int),
        decreases ls@.len() - i,
    {
        proof {
            assert(dv[i as int] == ls@[i as int]@);
        }
        if is_name_line_exec(ls[i].as_slice(), name) {
            return Some(i);
        }
        i = i + 1;
    }
    None
}

fn find_version_line(ls: &Vec<Vec<char>>, from: usize) -> (r: Option<usize>)
    requires
        from <= ls@.len(),
    ensures
        match r {
            Some(i) => first_version_line(ls.deep_view(), from as int) == Some(i as int) && from
                <= i < ls@.len() && is_version_line(ls.deep_view()[i as int]),
            None => first_version_line(ls.deep_view(), from as int) is None,
        },
{
    let ghost dv = ls.deep_view();
    let mut i: usize = from;
    while i < ls.len()
        invariant
            dv == ls.deep_view(),
            from <= i <= ls@.len(),
            first_version_line(dv, from as int) == first_version_line(dv, i as int),
        decreases ls@.len() - i,
    {
        proof {
            assert(dv[i as int] == ls@[i as int]@);
        }
        if is_version_line_exec(ls[i].as_slice()) {
            return Some(i);
        }
        i = i + 1;
    }
    None
}

fn has_marker_between(ls: &Vec<Vec<char>>, a: usize, b: usize) -> (r: bool)
    requires
        a < b <= ls@.len(),
    ensures
        r == marker_between(ls.deep_view(), a as int, b as int),
{
    let ghost dv = ls.deep_view();
    let mut k: usize = a + 1;
    while k < b
        invariant
            dv == ls.deep_view(),
            a + 1 <= k,
            b <= ls@.len(),
            forall|t: int| a < t < k ==> !is_name_marker_line(#[trigger] dv[t]),
        decreases b - k,
    {
        proof {
            assert(dv[k as int] == ls@[k as int]@);
        }
        if is_name_marker_exec(ls[k].as_slice()) {
            return true;
        }
        k = k + 1;
    }
    false
}

impl ConfigUpdater {
    /// Replaces the version value of the named chart, leaving everything else
    /// on the line and in the document untouched. Scans forward from the
    /// chart's `name:` line to the first `version:` field; another item's
    /// `name:` marker in between means the field belongs to a different
    /// chart, and the edit is refused instead of corrupting that entry.
    pub fn replace_chart_version_in_text(
        content: &str,
        chart_name: &str,
        new_version: &str,
    ) -> (r: Result<String, UpdateError>)
        ensures
            exists|ls: Seq<Seq<char>>|
                {
                    &&& #[trigger] valid_split(ls, content@)
                    &&& match r {
                        Ok(out) => {
                            let res = replace_spec(ls, chart_name@, new_version@);
                            res is Ok && out@ == join_with(res->Ok_0, seq!['\n'])
                        },
                        Err(e) => replace_spec(ls, chart_name@, new_version@) == Err::<
                            Seq<Seq<char>>,
                            UpdateError,
                        >(e),
                    }
                },
    {
        let cv = str_to_chars(content);
        let mut lines = split_lines(cv.as_slice());
        let _n_lines = lines.len();
        let ghost ls = lines.deep_view();
        let namec = str_to_chars(chart_name);
        let ni = match find_name_line(&lines, namec.as_slice(), 0) {
            Some(ni) => ni,
            None => {
                proof {
                    assert(valid_split(ls, content@));
                    assert(replace_spec(ls, chart_name@, new_version@) == Err::<
                        Seq<Seq<char>>,
                        UpdateError,
                    >(UpdateError::ChartNotFound));
                }
                return Err(UpdateError::ChartNotFound);
            },
        };
        let vi = match find_version_line(&lines, ni + 1) {
            Some(vi) => vi,
            None => {
                proof {
                    assert(valid_split(ls, content@));
                }
                return Err(UpdateError::VersionNotFound);
            },
        };
        if has_marker_between(&lines, ni, vi) {
            proof {
                assert(valid_split(ls, content@));
            }
            return Err(UpdateError::CrossedBoundary);
        }
        proof {
            assert(ls[vi as int] == lines@[vi as int]@);
        }
        let newline = replaced_version_line_exec(lines[vi].as_slice(), new_version);
        lines.set(vi, newline);
        proof {
            assert(lines.deep_view() =~= ls.update(
                vi as int,
                replaced_version_line(ls[vi as int], new_version@),
            )) by {
                assert forall|k: int| 0 <= k < lines.deep_view().len() implies lines.deep_view()[k]
                    == ls.update(
                    vi as int,
                    replaced_version_line(ls[vi as int], new_version@),
                )[k] by {
                    assert(lines.deep_view()[k] == lines@[k]@);
                }
            }
        }
        let joined = join_lines(&lines);
        let out = chars_to_string(&joined);
        proof {
            assert(valid_split(ls, content@));
            assert(replace_spec(ls, chart_name@, new_version@) == Ok::<Seq<Seq<char>>, UpdateError>(
                ls.update(vi as int, replaced_version_line(ls[vi as int], new_version@)),
            ));
        }
        Ok(out)
    }
}

/// The line holds only whitespace.
pub open spec fn is_blank(line: Seq<char>) -> bool {
    skip_ws(line, 0) == line.len()
}

/// The line's first non-whitespace character opens a comment.
pub open spec fn is_comment(line: Seq<char>) -> bool {
    let a = skip_ws(line, 0);
    a < line.len() && line[a] == '#'
}

/// The line's first non-whitespace character is a list marker.
pub open spec fn is_dash_line(line: Seq<char>) -> bool {
    let a = skip_ws(line, 0);
    a < line.len() && line[a] == '-'
}

/// The line opens a list item at exactly the given indentation.
pub open spec fn is_item_start(line: Seq<char>, indent: int) -> bool {
    skip_ws(line, 0) == indent && indent < line.len() && line[indent] == '-'
}

/// The line is the section header itself: the key at column zero, then only
/// trailing whitespace.
pub open spec fn is_section_line(line: Seq<char>, key: Seq<char>) -> bool {
    match_at(line, key, 0) && skip_ws(line, key.len() as int) == line.len()
}

/// The line is `key` (colon included) with exactly `value`, after an optional
/// list marker, with only trailing whitespace.
pub open spec fn is_field_line(line: Seq<char>, key: Seq<char>, value: Seq<char>) -> bool {
    let b = after_marker(line);
    let c = skip_ws(line, b + key.len());
    &&& match_at(line, key, b)
    &&& match_at(line, value, c)
    &&& skip_ws(line, c + value.len()) == line.len()
}

/// First line at or after `from` that is the section header for `key`.
pub open spec fn find_section_line(ls: Seq<Seq<char>>, key: Seq<char>, from: int) -> Option<int>
    decreases ls.len() - from + 1,
{
    if from < 0 || from >= ls.len() {
        None
    } else if is_section_line(ls[from], key) {
        Some(from)
    } else {
        find_section_line(ls, key, from + 1)
    }
}

/// First item-opening line of the section, scanning from `from`; the scan
/// ends at a non-blank, non-comment line back at column zero (the section is
/// over).
pub open spec fn find_first_item(ls: Seq<Seq<char>>, from: int) -> Option<int>
    decreases ls.len() - from + 1,
{
    if from < 0 || from >= ls.len() {
        None
    } else if is_dash_line(ls[from]) {
        Some(from)
    } else if !is_blank(ls[from]) && !is_comment(ls[from]) && skip_ws(ls[from], 0) == 0 {
        None
    } else {
        find_first_item(ls, from + 1)
    }
}

/// Where the item opening at `k - 1`-ish ends: the next sibling item at the
/// same indentation, a dedent back to column zero, or a blank line that a
/// comment block follows (a section-header separator, not absorbed).
pub open spec fn item_end_from(ls: Seq<Seq<char>>, k: int, indent: int) -> int
    decreases ls.len() - k + 1,
{
    if k < 0 || k >= ls.len() {
        ls.len() as int
    } else if is_item_start(ls[k], indent) {
        k
    } else if !is_blank(ls[k]) && !is_comment(ls[k]) && skip_ws(ls[k], 0) == 0 {
        k
    } else if is_blank(ls[k]) && k + 1 < ls.len() && is_comment(ls[k + 1]) {
        k
    } else {
        item_end_from(ls, k + 1, indent)
    }
}

proof fn lemma_item_end_bounds(ls: Seq<Seq<char>>, k: int, indent: int)
    requires
        0 <= k <= ls.len(),
    ensures
        k <= item_end_from(ls, k, indent) <= ls.len(),
    decreases ls.len() - k + 1,
{
    if k < ls.len() && !is_item_start(ls[k], indent) && !(!is_blank(ls[k]) && !is_comment(ls[k])
        && skip_ws(ls[k], 0) == 0) && !(is_blank(ls[k]) && k + 1 < ls.len() && is_comment(
        ls[k + 1],
    )) {
        lemma_item_end_bounds(ls, k + 1, indent);
    }
}

/// All field predicates hold somewhere within the item's line range.
pub open spec fn item_matches(
    ls: Seq<Seq<char>>,
    s: int,
    e: int,
    name: Seq<char>,
    ns: Seq<char>,
) -> bool {
    &&& exists|i: int| s <= i < e && is_field_line(#[trigger] ls[i], "name:"@, name)
    &&& exists|i: int| s <= i < e && is_field_line(#[trigger] ls[i], "namespace:"@, ns)
}

/// Scans the section's items in order; the first whose fields all match is
/// returned with its line range.
pub open spec fn find_matching_item(
    ls: Seq<Seq<char>>,
    k: int,
    indent: int,
    name: Seq<char>,
    ns: Seq<char>,
) -> Option<(int, int)>
    decreases ls.len() - k,
{
    if k < 0 || k >= ls.len() {
        None
    } else {
        let e = item_end_from(ls, k + 1, indent);
        if !(k < e <= ls.len()) {
            None
        } else if item_matches(ls, k, e, name, ns) {
            Some((k, e))
        } else if e < ls.len() && is_item_start(ls[e], indent) {
            find_matching_item(ls, e, indent, name, ns)
        } else {
            None
        }
    }
}

/// What removing the chart (name, namespace) does to the lines: the matching
/// item's whole line range disappears; no match leaves the lines unchanged.
pub open spec fn remove_spec(ls: Seq<Seq<char>>, name: Seq<char>, ns: Seq<char>) -> Seq<Seq<char>> {
    match find_section_line(ls, "charts:"@, 0) {
        None => ls,
        Some(si) => match find_first_item(ls, si + 1) {
            None => ls,
            Some(fi) => {
                let indent = skip_ws(ls[fi], 0);
                match find_matching_item(ls, fi, indent, name, ns) {
                    None => ls,
                    Some(range) => ls.take(range.0) + ls.skip(range.1),
                }
            },
        },
    }
}

fn is_blank_exec(line: &[char]) -> (r: bool)
    ensures
        r == is_blank(line@),
{
    let a = skip_ws_exec(line, 0);
    a == line.len()
}

fn is_comment_exec(line: &[char]) -> (r: bool)
    ensures
        r == is_comment(line@),
{
    let a = skip_ws_exec(line, 0);
    a < line.len() && line[a] == '#'
}

fn is_dash_exec(line: &[char]) -> (r: bool)
    ensures
        r == is_dash_line(line@),
{
    let a = skip_ws_exec(line, 0);
    a < line.len() && line[a] == '-'
}

fn is_item_start_exec(line: &[char], indent: usize) -> (r: bool)
    ensures
        r == is_item_start(line@, indent as int),
{
    let a = skip_ws_exec(line, 0);
    a == indent && indent < line.len() && line[indent] == '-'
}

fn is_section_line_exec(line: &[char], key: &[char]) -> (r: bool)
    ensures
        r == is_section_line(line@, key@),
{
    if key.len() > line.len() {
        proof {
            assert(!match_at(line@, key@, 0));
        }
        return false;
    }
    if !match_at_exec(line, key, 0) {
        return false;
    }
    let e = skip_ws_exec(line, key.len());
    e == line.len()
}

fn is_field_line_exec(line: &[char], key: &[char], value: &[char]) -> (r: bool)
    ensures
        r == is_field_line(line@, key@, value@),
{
    let b = after_marker_exec(line);
    if key.len() > line.len() - b {
        proof {
            assert(!match_at(line@, key@, b as int));
        }
        return false;
    }
    if !match_at_exec(line, key, b) {
        return false;
    }
    let c = skip_ws_exec(line, b + key.len());
    if value.len() > line.len() - c {
        proof {
            assert(!match_at(line@, value@, c as int));
        }
        return false;
    }
    if !match_at_exec(line, value, c) {
        return false;
    }
    let e = skip_ws_exec(line, c + value.len());
    e == line.len()
}

fn find_section_line_exec(ls: &Vec<Vec<char>>, key: &[char], from: usize) -> (r: Option<usize>)
    requires
        from <= ls@.len(),
    ensures
        match r {
            Some(i) => find_section_line(ls.deep_view(), key@, from as int) == Some(i as int)
                && from <= i < ls@.len(),
            None => find_section_line(ls.deep_view(), key@, from as int) is None,
        },
{
    let ghost dv = ls.deep_view();
    let mut i: usize = from;
    while i < ls.len()
        invariant
            dv == ls.deep_view(),
            from <= i <= ls@.len(),
            find_section_line(dv, key@, from as int) == find_section_line(dv, key@, i as int),
        decreases ls@.len() - i,
    {
        proof {
            assert(dv[i as int] == ls@[i as int]@);
        }
        if is_section_line_exec(ls[i].as_slice(), key) {
            return Some(i);
        }
        i = i + 1;
    }
    None
}

fn find_first_item_exec(ls: &Vec<Vec<char>>, from: usize) -> (r: Option<usize>)
    requires
        from <= ls@.len(),
    ensures
        match r {
            Some(i) => find_first_item(ls.deep_view(), from as int) == Some(i as int) && from <= i
                < ls@.len() && is_dash_line(ls.deep_view()[i as int]),
            None => find_first_item(ls.deep_view(), from as int) is None,
        },
{
    let ghost dv = ls.deep_view();
    let mut i: usize = from;
    while i < ls.len()
        invariant
            dv == ls.deep_view(),
            from <= i <= ls@.len(),
            find_first_item(dv, from as int) == find_first_item(dv, i as int),
        decreases ls@.len() - i,
    {
        proof {
            assert(dv[i as int] == ls@[i as int]@);
        }
        if is_dash_exec(ls[i].as_slice()) {
            return Some(i);
        }
        let blank = is_blank_exec(ls[i].as_slice());
        let comment = is_comment_exec(ls[i].as_slice());
        let ind = skip_ws_exec(ls[i].as_slice(), 0);
        if !blank && !comment && ind == 0 {
            return None;
        }
        i = i + 1;
    }
    None
}

fn item_end_exec(ls: &Vec<Vec<char>>, k: usize, indent: usize) -> (r: usize)
    requires
        k <= ls@.len(),
    ensures
        r as int == item_end_from(ls.deep_view(), k as int, indent as int),
        k <= r <= ls@.len(),
{
    let ghost dv = ls.deep_view();
    let mut i: usize = k;
    while i < ls.len()
        invariant
            dv == ls.deep_view(),
            k <= i <= ls@.len(),
            item_end_from(dv, k as int, indent as int) == item_end_from(dv, i as int, indent as int),
        decreases ls@.len() - i,
    {
        proof {
            assert(dv[i as int] == ls@[i as int]@);
        }
        if is_item_start_exec(ls[i].as_slice(), indent) {
            return i;
        }
        let blank = is_blank_exec(ls[i].as_slice());
        let comment = is_comment_exec(ls[i].as_slice());
        let ind = skip_ws_exec(ls[i].as_slice(), 0);
        if !blank && !comment && ind == 0 {
            return i;
        }
        if blank && i + 1 < ls.len() {
            proof {
                assert(dv[i + 1] == ls@[i + 1]@);
            }
            if is_comment_exec(ls[i + 1].as_slice()) {
                return i;
            }
        }
        i = i + 1;
    }
    i
}

fn item_matches_exec(
    ls: &Vec<Vec<char>>,
    s: usize,
    e: usize,
    name: &[char],
    ns: &[char],
) -> (r: bool)
    requires
        s <= e <= ls@.len(),
    ensures
        r == item_matches(ls.deep_view(), s as int, e as int, name@, ns@),
{
    let ghost dv = ls.deep_view();
    let key_name = str_to_chars("name:");
    let key_ns = str_to_chars("namespace:");
    let mut name_found = false;
    let mut ns_found = false;
    let mut i: usize = s;
    while i < e
        invariant
            dv == ls.deep_view(),
            s <= i <= e <= ls@.len(),
            key_name@ == "name:"@,
            key_ns@ == "namespace:"@,
            name_found ==> exists|t: int| s <= t < e && is_field_line(#[trigger] dv[t], "name:"@, name@),
            !name_found ==> forall|t: int|
                s <= t < i ==> !is_field_line(#[trigger] dv[t], "name:"@, name@),
            ns_found ==> exists|t: int|
                s <= t < e && is_field_line(#[trigger] dv[t], "namespace:"@, ns@),
            !ns_found ==> forall|t: int|
                s <= t < i ==> !is_field_line(#[trigger] dv[t], "namespace:"@, ns@),
        decreases e - i,
    {
        proof {
            assert(dv[i as int] == ls@[i as int]@);
        }
        if !name_found && is_field_line_exec(ls[i].as_slice(), key_name.as_slice(), name) {
            name_found = true;
        }
        if !ns_found && is_field_line_exec(ls[i].as_slice(), key_ns.as_slice(), ns) {
            ns_found = true;
        }
        i = i + 1;
    }
    name_found && ns_found
}

fn find_matching_item_exec(
    ls: &Vec<Vec<char>>,
    k: usize,
    indent: usize,
    name: &[char],
    ns: &[char],
) -> (r: Option<(usize, usize)>)
    requires
        k < ls@.len(),
    ensures
        match r {
            Some(range) => find_matching_item(ls.deep_view(), k as int, indent as int, name@, ns@)
                == Some((range.0 as int, range.1 as int)) && k <= range.0 < range.1 <= ls@.len(),
            None => find_matching_item(ls.deep_view(), k as int, indent as int, name@, ns@)
                is None,
        },
    decreases ls@.len() - k,
{
    let ghost dv = ls.deep_view();
    let _n_lines = ls.len();
    let e = item_end_exec(ls, k + 1, indent);
    if item_matches_exec(ls, k, e, name, ns) {
        return Some((k, e));
    }
    if e < ls.len() {
        proof {
            assert(dv[e as int] == ls@[e as int]@);
        }
        if is_item_start_exec(ls[e].as_slice(), indent) {
            return find_matching_item_exec(ls, e, indent, name, ns);
        }
    }
    None
}

impl ConfigUpdater {
    /// Removes the chart entry matching both the `name:` and `namespace:`
    /// field predicates from the `charts:` section: the item's whole line
    /// range is deleted, trailing blank and comment lines included, except a
    /// blank line followed by a comment block, which is a section separator
    /// and stays. Absence of a match is not an error: the text comes back
    /// unchanged.
    pub fn remove_chart_in_text(content: &str, chart_name: &str, namespace: &str) -> (r: String)
        ensures
            exists|ls: Seq<Seq<char>>|
                {
                    &&& #[trigger] valid_split(ls, content@)
                    &&& r@ == join_with(
                        remove_spec(ls, chart_name@, namespace@),
                        seq!['\n'],
                    )
                },
    {
        let cv = str_to_chars(content);
        let lines = split_lines(cv.as_slice());
        let _n_lines = lines.len();
        let ghost ls = lines.deep_view();
        let key = str_to_chars("charts:");
        let namec = str_to_chars(chart_name);
        let nsc = str_to_chars(namespace);
        let si = match find_section_line_exec(&lines, key.as_slice(), 0) {
            Some(si) => si,
            None => {
                let mut t = String::new();
                t.append(content);
                proof {
                    assert(valid_split(ls, content@));
                    assert(remove_spec(ls, chart_name@, namespace@) == ls);
                }
                return t;
            },
        };
        let fi = match find_first_item_exec(&lines, si + 1) {
            Some(fi) => fi,
            None => {
                let mut t = String::new();
                t.append(content);
                proof {
                    assert(valid_split(ls, content@));
                }
                return t;
            },
        };
        proof {
            assert(ls[fi as int] == lines@[fi as int]@);
        }
        let indent = skip_ws_exec(lines[fi].as_slice(), 0);
        proof {
            assert(is_dash_line(ls[fi as int]));
            assert(indent < ls[fi as int].len());
        }
        let range = match find_matching_item_exec(&lines, fi, indent, namec.as_slice(), nsc.as_slice()) {
            Some(range) => range,
            None => {
                let mut t = String::new();
                t.append(content);
                proof {
                    assert(valid_split(ls, content@));
                }
                return t;
            },
        };
        let mut kept: Vec<Vec<char>> = Vec::new();
        let mut i: usize = 0;
        proof {
            assert(kept.deep_view() =~= ls.take(0));
        }
        while i < range.0
            invariant
                ls == lines.deep_view(),
                i <= range.0 <= ls.len(),
                kept.deep_view() == ls.take(i as int),
            decreases range.0 - i,
        {
            let ghost prev = kept.deep_view();
            kept.push(crate::text::copy_line(&lines[i]));
            proof {
                assert forall|t: int| 0 <= t < kept.deep_view().len() implies kept.deep_view()[t]
                    == prev.push(ls[i as int])[t] by {
                    assert(kept.deep_view()[t] == kept@[t]@);
                }
                assert(ls[i as int] == lines@[i as int]@);
                assert(kept.deep_view() =~= prev.push(ls[i as int]));
                assert(ls.take(i + 1) =~= ls.take(i as int).push(ls[i as int]));
            }
            i = i + 1;
        }
        let mut j: usize = range.1;
        while j < lines.len()
            invariant
                ls == lines.deep_view(),
                range.0 <= ls.len(),
                range.1 <= j <= ls.len(),
                kept.deep_view() == ls.take(range.0 as int) + ls.subrange(range.1 as int, j as int),
            decreases ls.len() - j,
        {
            let ghost prev = kept.deep_view();
            kept.push(crate::text::copy_line(&lines[j]));
            proof {
                assert forall|t: int| 0 <= t < kept.deep_view().len() implies kept.deep_view()[t]
                    == prev.push(ls[j as int])[t] by {
                    assert(kept.deep_view()[t] == kept@[t]@);
                }
                assert(ls[j as int] == lines@[j as int]@);
                assert(kept.deep_view() =~= prev.push(ls[j as int]));
                assert(ls.take(range.0 as int) + ls.subrange(range.1 as int, j + 1) =~= (ls.take(
                    range.0 as int,
                ) + ls.subrange(range.1 as int, j as int)).push(ls[j as int]));
            }
            j = j + 1;
        }
        proof {
            assert(ls.subrange(range.1 as int, ls.len() as int) =~= ls.skip(range.1 as int));
            assert(kept.deep_view() == ls.take(range.0 as int) + ls.skip(range.1 as int));
            assert(valid_split(ls, content@));
        }
        let joined = join_lines(&kept);
        chars_to_string(&joined)
    }
}

/// A found name line lies within the line sequence.
pub proof fn lemma_first_name_line_bounds(ls: Seq<Seq<char>>, name: Seq<char>, from: int, i: int)
    requires
        first_name_line(ls, name, from) == Some(i),
    ensures
        from <= i < ls.len(),
        is_name_line(ls[i], name),
        forall|k: int| from <= k < i ==> !is_name_line(#[trigger] ls[k], name),
    decreases ls.len() - from + 1,
{
    if from < 0 || from >= ls.len() {
    } else if is_name_line(ls[from], name) {
    } else {
        lemma_first_name_line_bounds(ls, name, from + 1, i);
    }
}

proof fn lemma_find_section_at(ls: Seq<Seq<char>>, key: Seq<char>, from: int, si: int)
    requires
        0 <= from <= si < ls.len(),
        is_section_line(ls[si], key),
        forall|k: int| from <= k < si ==> !is_section_line(#[trigger] ls[k], key),
    ensures
        find_section_line(ls, key, from) == Some(si),
    decreases si - from,
{
    if from < si {
        lemma_find_section_at(ls, key, from + 1, si);
    }
}

proof fn lemma_item_end_scan(ls: Seq<Seq<char>>, k: int, e: int, indent: int)
    requires
        0 <= k <= e <= ls.len(),
        forall|t: int|
            k <= t < e ==> !is_item_start(#[trigger] ls[t], indent) && !is_blank(ls[t]) && skip_ws(
                ls[t],
                0,
            ) >= 1,
        e == ls.len() || is_item_start(ls[e], indent) || (!is_blank(ls[e]) && !is_comment(ls[e])
            && skip_ws(ls[e], 0) == 0) || (is_blank(ls[e]) && e + 1 < ls.len() && is_comment(
            ls[e + 1],
        )),
    ensures
        item_end_from(ls, k, indent) == e,
    decreases e - k,
{
    if k < e {
        lemma_item_end_scan(ls, k + 1, e, indent);
    }
}

/// The line block of a freshly inserted item: it opens with the item's
/// `name:` line at the section's item indentation, its remaining lines are
/// indented field lines, and it carries the item's `namespace:` field.
pub open spec fn fresh_item_block(bl: Seq<Seq<char>>, name: Seq<char>, ns: Seq<char>) -> bool {
    &&& bl.len() > 0
    &&& is_item_start(bl[0], 2)
    &&& is_field_line(bl[0], "name:"@, name)
    &&& exists|k: int| 0 <= k < bl.len() && is_field_line(#[trigger] bl[k], "namespace:"@, ns)
    &&& forall|k: int|
        1 <= k < bl.len() ==> !is_item_start(#[trigger] bl[k], 2) && !is_blank(bl[k]) && skip_ws(
            bl[k],
            0,
        ) >= 1
}

/// What may follow the inserted block for its end to be found exactly
/// there: a sibling item at the same indentation, a line back at column
/// zero opening another section, or a blank line followed by a comment
/// block (the section-separator form that the scan never absorbs).
pub open spec fn clean_follower(ls: Seq<Seq<char>>, at: int) -> bool {
    ||| at == ls.len()
    ||| (at < ls.len() && is_item_start(ls[at], 2))
    ||| (at < ls.len() && !is_blank(ls[at]) && !is_comment(ls[at]) && skip_ws(ls[at], 0) == 0)
    ||| (at < ls.len() && is_blank(ls[at]) && at + 1 < ls.len() && is_comment(ls[at + 1]))
}

/// Joining concatenated line groups joins each group around one separator.
proof fn lemma_join_concat(a: Seq<Seq<char>>, b: Seq<Seq<char>>)
    requires
        a.len() > 0,
        b.len() > 0,
    ensures
        join_with(a + b, seq!['\n']) == join_with(a, seq!['\n']) + seq!['\n'] + join_with(
            b,
            seq!['\n'],
        ),
    decreases a.len(),
{
    let nl = seq!['\n'];
    if a.len() == 1 {
        assert((a + b).drop_first() =~= b);
        assert((a + b)[0] == a[0]);
        assert(join_with(a + b, nl) == a[0] + nl + join_with(b, nl));
    } else {
        assert((a + b).drop_first() =~= a.drop_first() + b);
        assert((a + b)[0] == a[0]);
        lemma_join_concat(a.drop_first(), b);
        assert(a[0] + nl + (join_with(a.drop_first(), nl) + nl + join_with(b, nl)) =~= (a[0] + nl
            + join_with(a.drop_first(), nl)) + nl + join_with(b, nl));
    }
}

/// The lines the inserted chart block consists of, in order.
pub open spec fn chart_block_lines(c: &ChartConfig) -> Seq<Seq<char>> {
    seq![
        "  - name: "@ + c.name@,
        "    repo_name: "@ + c.repo_name@,
        "    namespace: "@ + c.namespace@,
    ] + (match c.version {
        Some(v) => seq!["    version: "@ + v@],
        None => Seq::empty(),
    }) + (match c.chart_path {
        Some(p) => seq!["    chart_path: "@ + p@],
        None => Seq::empty(),
    }) + (match c.comment {
        Some(m) => seq!["    comment: "@ + m@],
        None => Seq::empty(),
    })
}

/// The field value fits on one line of the block: it holds no line break,
/// and does not open with blank space that the field scan would swallow.
pub open spec fn clean_field_text(s: Seq<char>) -> bool {
    &&& forall|k: int| 0 <= k < s.len() ==> s[k] != '\n'
    &&& (s.len() > 0 ==> s[0] != ' ' && s[0] != '\t')
}

/// The chart block is the newline-joined form of its lines, every line is
/// free of line breaks, and the lines form a fresh item block for the
/// chart's (name, namespace) identity.
#[verifier::rlimit(100)]
#[verifier::spinoff_prover]
proof fn lemma_chart_block_structure(c: &ChartConfig)
    requires
        clean_field_text(c.name@),
        clean_field_text(c.repo_name@),
        clean_field_text(c.namespace@),
        c.version matches Some(v) ==> clean_field_text(v@),
        c.chart_path matches Some(p) ==> clean_field_text(p@),
        c.comment matches Some(m) ==> clean_field_text(m@),
    ensures
        chart_block(c) == seq!['\n'] + join_with(chart_block_lines(c), seq!['\n']),
        forall|k: int|
            0 <= k < chart_block_lines(c).len() ==> !(#[trigger] chart_block_lines(c)[k]).contains(
                '\n',
            ),
        fresh_item_block(chart_block_lines(c), c.name@, c.namespace@),
{
    reveal_strlit("\n  - name: ");
    reveal_strlit("\n    repo_name: ");
    reveal_strlit("\n    namespace: ");
    reveal_strlit("\n    version: ");
    reveal_strlit("\n    chart_path: ");
    reveal_strlit("\n    comment: ");
    reveal_strlit("  - name: ");
    reveal_strlit("    repo_name: ");
    reveal_strlit("    namespace: ");
    reveal_strlit("    version: ");
    reveal_strlit("    chart_path: ");
    reveal_strlit("    comment: ");
    reveal_strlit("name:");
    reveal_strlit("namespace:");
    reveal_with_fuel(skip_ws, 20);
    let nl = seq!['\n'];
    let bl = chart_block_lines(c);
    let l0 = "  - name: "@ + c.name@;
    let l1 = "    repo_name: "@ + c.repo_name@;
    let l2 = "    namespace: "@ + c.namespace@;

    // each newline-prefixed literal splits into the separator and a line prefix
    assert("\n  - name: "@ =~= nl + "  - name: "@);
    assert("\n    repo_name: "@ =~= nl + "    repo_name: "@);
    assert("\n    namespace: "@ =~= nl + "    namespace: "@);
    assert("\n    version: "@ =~= nl + "    version: "@);
    assert("\n    chart_path: "@ =~= nl + "    chart_path: "@);
    assert("\n    comment: "@ =~= nl + "    comment: "@);

    // the flat block text is the lines joined by newlines
    let head = seq![l0, l1, l2];
    assert(join_with(head, nl) =~= l0 + nl + l1 + nl + l2) by {
        assert(join_with(head, nl) == l0 + nl + join_with(head.drop_first(), nl));
        assert(head.drop_first() =~= seq![l1, l2]);
        assert(join_with(seq![l1, l2], nl) == l1 + nl + join_with(seq![l1, l2].drop_first(), nl));
        assert(seq![l1, l2].drop_first() =~= seq![l2]);
    }
    let tail_v: Seq<Seq<char>> = match c.version {
        Some(v) => seq!["    version: "@ + v@],
        None => Seq::empty(),
    };
    let tail_p: Seq<Seq<char>> = match c.chart_path {
        Some(p) => seq!["    chart_path: "@ + p@],
        None => Seq::empty(),
    };
    let tail_m: Seq<Seq<char>> = match c.comment {
        Some(m) => seq!["    comment: "@ + m@],
        None => Seq::empty(),
    };
    let tail = tail_v + tail_p + tail_m;
    assert(bl =~= head + tail);
    if tail.len() > 0 {
        lemma_join_concat(head, tail);
        assert(join_with(bl, nl) == join_with(head + tail, nl));
        if tail_v.len() > 0 && tail_p.len() > 0 && tail_m.len() > 0 {
            lemma_join_concat(tail_v, tail_p + tail_m);
            assert(tail_v + (tail_p + tail_m) =~= tail);
            lemma_join_concat(tail_p, tail_m);
        } else if tail_v.len() > 0 && tail_p.len() > 0 {
            assert(tail =~= tail_v + tail_p);
            lemma_join_concat(tail_v, tail_p);
        } else if tail_v.len() > 0 && tail_m.len() > 0 {
            assert(tail =~= tail_v + tail_m);
            lemma_join_concat(tail_v, tail_m);
        } else if tail_p.len() > 0 && tail_m.len() > 0 {
            assert(tail =~= tail_p + tail_m);
            lemma_join_concat(tail_p, tail_m);
        } else if tail_v.len() > 0 {
            assert(tail =~= tail_v);
        } else if tail_p.len() > 0 {
            assert(tail =~= tail_p);
        } else {
            assert(tail =~= tail_m);
        }
    } else {
        assert(bl =~= head);
    }
    assert(chart_block(c) =~= nl + join_with(bl, nl));

    // no line holds a newline
    assert forall|k: int| 0 <= k < bl.len() implies !(#[trigger] bl[k]).contains('\n') by {
        assert forall|t: int| 0 <= t < bl[k].len() implies bl[k][t] != '\n' by {}
        if bl[k].contains('\n') {
            let t = choose|t: int| 0 <= t < bl[k].len() && bl[k][t] == '\n';
        }
    }

    // the lines form a fresh item block for (name, namespace)
    assert(is_item_start(bl[0], 2)) by {
        assert(bl[0] == l0);
        assert(skip_ws(l0, 0) == 2);
    }
    assert(is_field_line(bl[0], "name:"@, c.name@)) by {
        assert(bl[0] == l0);
        assert(skip_ws(l0, 0) == 2);
        assert(after_marker(l0) == 4) by {
            assert(l0[2] == '-');
            assert(skip_ws(l0, 3) == 4);
        }
        assert(match_at(l0, "name:"@, 4)) by {
            assert(l0.subrange(4, 9) =~= "name:"@);
        }
        assert(skip_ws(l0, 9) == 10) by {
            assert(l0[9] == ' ');
            if c.name@.len() > 0 {
                assert(l0[10] == c.name@[0]);
            }
        }
        assert(match_at(l0, c.name@, 10)) by {
            assert(l0.subrange(10, 10 + c.name@.len() as int) =~= c.name@);
        }
        assert(skip_ws(l0, 10 + c.name@.len() as int) == l0.len());
    }
    assert(is_field_line(bl[2], "namespace:"@, c.namespace@)) by {
        assert(bl[2] == l2);
        assert(skip_ws(l2, 0) == 4);
        assert(after_marker(l2) == 4) by {
            assert(l2[4] == 'n');
        }
        assert(match_at(l2, "namespace:"@, 4)) by {
            assert(l2.subrange(4, 14) =~= "namespace:"@);
        }
        assert(skip_ws(l2, 14) == 15) by {
            assert(l2[14] == ' ');
            if c.namespace@.len() > 0 {
                assert(l2[15] == c.namespace@[0]);
            }
        }
        assert(match_at(l2, c.namespace@, 15)) by {
            assert(l2.subrange(15, 15 + c.namespace@.len() as int) =~= c.namespace@);
        }
        assert(skip_ws(l2, 15 + c.namespace@.len() as int) == l2.len());
    }
    assert forall|k: int|
        1 <= k < bl.len() implies !is_item_start(#[trigger] bl[k], 2) && !is_blank(bl[k])
        && skip_ws(bl[k], 0) >= 1 by {
        assert(bl[k][0] == ' ' && bl[k][1] == ' ' && bl[k][2] == ' ' && bl[k][3] == ' ' && bl[k][4]
            != ' ' && bl[k][4] != '\t');
        assert(skip_ws(bl[k], 0) == 4) by {
            assert(skip_ws(bl[k], 4) == 4);
        }
    }
    assert(fresh_item_block(bl, c.name@, c.namespace@));
}

/// Inserting an item's line block right under the `charts:` section header
/// and then removing it by its (name, namespace) predicates restores the
/// surrounding lines exactly — so the whole document text round-trips.
/// Stated over the line decomposition: `ls` are the document's lines, with
/// the first `charts:` header at `si`, and `bl` the inserted block.
pub proof fn lemma_insert_remove_round_trip(
    ls: Seq<Seq<char>>,
    si: int,
    bl: Seq<Seq<char>>,
    name: Seq<char>,
    ns: Seq<char>,
)
    requires
        0 <= si < ls.len(),
        is_section_line(ls[si], "charts:"@),
        forall|k: int| 0 <= k < si ==> !is_section_line(#[trigger] ls[k], "charts:"@),
        fresh_item_block(bl, name, ns),
        clean_follower(ls, si + 1),
    ensures
        remove_spec(ls.take(si + 1) + bl + ls.skip(si + 1), name, ns) == ls,
{
    let new_ls = ls.take(si + 1) + bl + ls.skip(si + 1);
    let blen = bl.len() as int;
    let e = si + 1 + blen;
    assert(new_ls.len() == ls.len() + blen);
    assert forall|k: int| 0 <= k < si + 1 implies #[trigger] new_ls[k] == ls[k] by {}
    assert forall|k: int| si + 1 <= k < e implies #[trigger] new_ls[k] == bl[k - (si + 1)] by {}
    assert forall|k: int| e <= k < new_ls.len() implies #[trigger] new_ls[k] == ls[k - blen] by {}

    // the section header is still the first one
    lemma_find_section_at(new_ls, "charts:"@, 0, si);
    assert(find_section_line(new_ls, "charts:"@, 0) == Some(si));

    // the block's opening line is the first item of the section
    assert(is_dash_line(new_ls[si + 1])) by {
        assert(new_ls[si + 1] == bl[0]);
        assert(is_item_start(bl[0], 2));
    }
    assert(find_first_item(new_ls, si + 1) == Some(si + 1));
    assert(skip_ws(new_ls[si + 1], 0) == 2);

    // the block's line range ends exactly where the old text resumes
    assert(item_end_from(new_ls, si + 2, 2) == e) by {
        assert forall|t: int|
            si + 2 <= t < e implies !is_item_start(#[trigger] new_ls[t], 2) && !is_blank(new_ls[t])
            && skip_ws(new_ls[t], 0) >= 1 by {
            assert(new_ls[t] == bl[t - (si + 1)]);
        }
        if e < new_ls.len() {
            assert(new_ls[e] == ls[si + 1]);
            if e + 1 < new_ls.len() {
                assert(new_ls[e + 1] == ls[si + 2]);
            }
        }
        lemma_item_end_scan(new_ls, si + 2, e, 2);
    }

    // the inserted item matches both field predicates
    assert(item_matches(new_ls, si + 1, e, name, ns)) by {
        assert(new_ls[si + 1] == bl[0]);
        assert(is_field_line(new_ls[si + 1], "name:"@, name));
        let k = choose|k: int| 0 <= k < bl.len() && is_field_line(#[trigger] bl[k], "namespace:"@, ns);
        assert(new_ls[si + 1 + k] == bl[k]);
        assert(is_field_line(new_ls[si + 1 + k], "namespace:"@, ns));
    }
    assert(find_matching_item(new_ls, si + 1, 2, name, ns) == Some((si + 1, e)));

    // deleting the block's range gives the old lines back
    assert(new_ls.take(si + 1) + new_ls.skip(e) =~= ls) by {
        assert forall|k: int|
            0 <= k < new_ls.take(si + 1).len() + new_ls.skip(e).len() implies (new_ls.take(si + 1)
            + new_ls.skip(e))[k] == ls[k] by {
            if k < si + 1 {
                assert((new_ls.take(si + 1) + new_ls.skip(e))[k] == new_ls[k]);
            } else {
                assert((new_ls.take(si + 1) + new_ls.skip(e))[k] == new_ls[k + blen]);
            }
        }
    }
    assert(remove_spec(new_ls, name, ns) == ls);
}

/// Adding a chart and immediately removing it by its (name, namespace)
/// predicates restores the document text exactly. The conditions say that
/// the document is well formed for the edit: the first occurrence of the
/// section key in the text is the bare `charts:` header line itself, what
/// follows the header is a sibling item, another section, or a separating
/// comment block, and the chart's fields are single-line values.
#[verifier::rlimit(100)]
#[verifier::spinoff_prover]
pub proof fn lemma_add_then_remove_restores(
    content: Seq<char>,
    ls: Seq<Seq<char>>,
    si: int,
    c: &ChartConfig,
)
    requires
        valid_split(ls, content),
        0 <= si < ls.len(),
        ls[si] == "charts:"@,
        forall|k: int| 0 <= k < si ==> !is_section_line(#[trigger] ls[k], "charts:"@),
        find_from(content, "charts:"@, 0) == Some(
            join_with(ls.take(si + 1), seq!['\n']).len() as int - "charts:"@.len() as int,
        ),
        clean_follower(ls, si + 1),
        clean_field_text(c.name@),
        clean_field_text(c.repo_name@),
        clean_field_text(c.namespace@),
        c.version matches Some(v) ==> clean_field_text(v@),
        c.chart_path matches Some(p) ==> clean_field_text(p@),
        c.comment matches Some(m) ==> clean_field_text(m@),
    ensures
        ({
            let new_ls = ls.take(si + 1) + chart_block_lines(c) + ls.skip(si + 1);
            &&& valid_split(new_ls, insert_after_key(content, "charts:"@, chart_block(c)))
            &&& remove_spec(new_ls, c.name@, c.namespace@) == ls
            &&& join_with(remove_spec(new_ls, c.name@, c.namespace@), seq!['\n']) == content
        }),
{
    lemma_chart_block_structure(c);
    let nl = seq!['\n'];
    let key = "charts:"@;
    let bl = chart_block_lines(c);
    let a = ls.take(si + 1);
    let b = ls.skip(si + 1);
    let new_ls = a + bl + b;
    let header_end = join_with(a, nl).len() as int;
    let inserted = insert_after_key(content, key, chart_block(c));

    // the text splits at the end of the header line
    if b.len() > 0 {
        assert(ls =~= a + b);
        lemma_join_concat(a, b);
        assert(content == join_with(a, nl) + nl + join_with(b, nl));
        assert(content.take(header_end) =~= join_with(a, nl));
        assert(content.skip(header_end) =~= nl + join_with(b, nl));
    } else {
        assert(ls =~= a);
        assert(content == join_with(a, nl));
        assert(content.take(header_end) =~= join_with(a, nl));
        assert(content.skip(header_end) =~= Seq::<char>::empty());
    }
    assert(inserted == content.take(header_end) + chart_block(c) + content.skip(header_end));

    // the inserted text is the new line sequence joined back up
    assert(join_with(new_ls, nl) == inserted) by {
        lemma_join_concat(a, bl);
        if b.len() > 0 {
            assert(new_ls =~= (a + bl) + b);
            lemma_join_concat(a + bl, b);
            assert(join_with(new_ls, nl) == (join_with(a, nl) + nl + join_with(bl, nl)) + nl
                + join_with(b, nl));
            assert((join_with(a, nl) + nl + join_with(bl, nl)) + nl + join_with(b, nl) =~= join_with(
                a,
                nl,
            ) + (nl + join_with(bl, nl)) + (nl + join_with(b, nl)));
        } else {
            assert(new_ls =~= a + bl);
            assert(join_with(new_ls, nl) == join_with(a, nl) + nl + join_with(bl, nl));
            assert(join_with(a, nl) + nl + join_with(bl, nl) =~= join_with(a, nl) + (nl
                + join_with(bl, nl)) + Seq::<char>::empty());
        }
    }
    assert(valid_split(new_ls, inserted)) by {
        assert forall|k: int| 0 <= k < new_ls.len() implies !(#[trigger] new_ls[k]).contains('\n') by {
            if k < si + 1 {
                assert(new_ls[k] == ls[k]);
            } else if k < si + 1 + bl.len() {
                assert(new_ls[k] == bl[k - (si + 1)]);
            } else {
                assert(new_ls[k] == ls[k - bl.len()]);
            }
        }
    }

    // the removal finds exactly the inserted block and deletes it
    assert(is_section_line(ls[si], key)) by {
        assert(ls[si].subrange(0, key.len() as int) =~= key);
        assert(skip_ws(ls[si], key.len() as int) == ls[si].len() as int);
    }
    lemma_insert_remove_round_trip(ls, si, bl, c.name@, c.namespace@);
    assert(join_with(remove_spec(new_ls, c.name@, c.namespace@), nl) == content);
}

} // verus!

