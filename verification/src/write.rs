//! The text patcher: re-locates each resolved declaration in its manifest and
//! rewrites exactly that line, leaving every other character of the text
//! untouched. The declaration is matched by its full line shape — keyword,
//! image, the digit-generalized form of the old tag, and the suffix — so an
//! identical `image:tag` substring inside unrelated text never matches.
//! Field separators are normalized to single spaces in the rewritten line;
//! this normalization is deliberate.

use vstd::prelude::*;

use crate::chars::{blank_run, blank_run_end, chars_to_string, str_to_chars, string_eq};
use crate::data::{Dockerfile, Parent, Tag};
use crate::errors::BumpError;
use crate::pattern::{lit_matches_at, munch, shape_of, tag_to_re, Pattern};
use crate::read::{files_contents, lines_of, parent_view, split_lines, ParentView};

verus! {

/// Does `line` hold exactly one declaration of `image` with a tag shaped
/// like `tag_name`, followed by `suffix`? The keyword and fields may be
/// separated by one or more blanks; the image and suffix are verbatim; the
/// tag part is matched by the pattern derived from `tag_name`.
pub open spec fn decl_line_matches(
    image: Seq<char>,
    tag_name: Seq<char>,
    suffix: Seq<char>,
    line: Seq<char>,
) -> bool {
    &&& line.len() >= 5
    &&& line[0] == 'F'
    &&& line[1] == 'R'
    &&& line[2] == 'O'
    &&& line[3] == 'M'
    &&& blank_run(line.skip(4)) >= 1
    &&& ({
        let p0 = 4 + blank_run(line.skip(4));
        &&& p0 + image.len() <= line.len()
        &&& line.skip(p0 as int).take(image.len() as int) == image
        &&& ({
            let p1 = p0 + image.len();
            &&& p1 < line.len()
            &&& line[p1 as int] == ':'
            &&& (munch(shape_of(tag_name), line.skip(p1 as int + 1)) matches Some(m) && ({
                let rest = line.skip(p1 as int + 1 + m.0);
                if suffix.len() == 0 {
                    blank_run(rest) == rest.len()
                } else {
                    blank_run(rest) >= 1 && rest.skip(blank_run(rest) as int) == suffix
                }
            }))
        })
    })
}

/// The normalized replacement line: keyword, image, the new tag, then the
/// suffix if there is one, joined by single spaces.
pub open spec fn decl_replacement(image: Seq<char>, new_name: Seq<char>, suffix: Seq<char>) -> Seq<
    char,
> {
    seq!['F', 'R', 'O', 'M', ' '] + image + seq![':'] + new_name + (if suffix.len() == 0 {
        Seq::<char>::empty()
    } else {
        seq![' '] + suffix
    })
}

/// Decides `decl_line_matches` for one line. The pattern handed in must be
/// the one derived from `tag_name`.
exec fn decl_match_line_exec(
    image: &Vec<char>,
    Ghost(tag_name): Ghost<Seq<char>>,
    tag_pat: &Pattern,
    suffix: &Vec<char>,
    line: &[char],
) -> (r: bool)
    requires
        tag_pat.segs_spec() == shape_of(tag_name),
    ensures
        r == decl_line_matches(image@, tag_name, suffix@, line@),
{
    let n: usize = line.len();
    if !(n >= 5 && line[0] == 'F' && line[1] == 'R' && line[2] == 'O' && line[3] == 'M') {
        return false;
    }
    let p0 = blank_run_end(line, 4);
    proof {
        assert(blank_run(line@.skip(4)) == p0 - 4);
    }
    if p0 == 4 {
        proof {
            assert(blank_run(line@.skip(4)) == 0);
        }
        return false;
    }
    if !lit_matches_at(line, p0, image) {
        return false;
    }
    let p1 = p0 + image.len();
    if !(p1 < n && line[p1] == ':') {
        return false;
    }
    match tag_pat.munch_at(line, p1 + 1) {
        None => {
            proof {
                assert(munch(shape_of(tag_name), line@.skip(p1 as int + 1)) is None);
            }
            false
        },
        Some((m, _caps)) => {
            let rest_start = p1 + 1 + m;
            let b = blank_run_end(line, rest_start);
            let ghost rest = line@.skip(rest_start as int);
            proof {
                assert(blank_run(rest) == b - rest_start);
                assert(rest.len() == n - rest_start);
            }
            if suffix.len() == 0 {
                b == n
            } else {
                if b == rest_start {
                    proof {
                        assert(blank_run(rest) == 0);
                    }
                    return false;
                }
                let r = lit_matches_at(line, b, suffix) && n - b == suffix.len();
                proof {
                    assert(rest.skip(blank_run(rest) as int) =~= line@.skip(b as int));
                    if r {
                        assert(line@.skip(b as int).take(suffix@.len() as int) =~= line@.skip(
                            b as int,
                        ));
                    } else {
                        if blank_run(rest) >= 1 && rest.skip(blank_run(rest) as int) == suffix@ {
                            assert(line@.skip(b as int) == suffix@);
                            assert(line@.skip(b as int).take(suffix@.len() as int) =~= suffix@);
                            assert(false);
                        }
                    }
                }
                r
            }
        },
    }
}

/// Builds the normalized replacement line.
exec fn decl_replacement_exec(image: &Vec<char>, new_name: &Vec<char>, suffix: &Vec<char>) -> (r:
    Vec<char>)
    ensures
        r@ == decl_replacement(image@, new_name@, suffix@),
{
    let mut out: Vec<char> = Vec::new();
    out.push('F');
    out.push('R');
    out.push('O');
    out.push('M');
    out.push(' ');
    let mut i: usize = 0;
    while i < image.len()
        invariant
            i <= image@.len(),
            out@ == seq!['F', 'R', 'O', 'M', ' '] + image@.take(i as int),
        decreases image@.len() - i,
    {
        out.push(image[i]);
        proof {
            assert(out@ =~= seq!['F', 'R', 'O', 'M', ' '] + image@.take(i as int + 1));
        }
        i = i + 1;
    }
    proof {
        assert(image@.take(image@.len() as int) =~= image@);
    }
    out.push(':');
    let ghost head = seq!['F', 'R', 'O', 'M', ' '] + image@ + seq![':'];
    proof {
        assert(out@ =~= head);
    }
    let mut j: usize = 0;
    while j < new_name.len()
        invariant
            j <= new_name@.len(),
            out@ == head + new_name@.take(j as int),
        decreases new_name@.len() - j,
    {
        out.push(new_name[j]);
        proof {
            assert(out@ =~= head + new_name@.take(j as int + 1));
        }
        j = j + 1;
    }
    proof {
        assert(new_name@.take(new_name@.len() as int) =~= new_name@);
    }
    if suffix.len() > 0 {
        out.push(' ');
        let ghost head2 = head + new_name@ + seq![' '];
        proof {
            assert(out@ =~= head2);
        }
        let mut k: usize = 0;
        while k < suffix.len()
            invariant
                k <= suffix@.len(),
                out@ == head2 + suffix@.take(k as int),
            decreases suffix@.len() - k,
        {
            out.push(suffix[k]);
            proof {
                assert(out@ =~= head2 + suffix@.take(k as int + 1));
            }
            k = k + 1;
        }
        proof {
            assert(suffix@.take(suffix@.len() as int) =~= suffix@);
            assert(out@ =~= decl_replacement(image@, new_name@, suffix@));
        }
    } else {
        proof {
            assert(out@ =~= decl_replacement(image@, new_name@, suffix@));
        }
    }
    out
}

/// What the scanner recognizes, the patcher re-finds: a line that yielded a
/// reference always matches the declaration rebuilt from that reference's
/// image, tag literal and suffix. This is why a failure to re-locate a
/// declaration in unmodified text is an internal invariant violation.
pub proof fn lemma_scanned_declaration_matches(idx: int, line: Seq<char>)
    requires
        crate::read::line_parent(idx, line) is Some,
    ensures
        ({
            let pv = crate::read::line_parent(idx, line)->Some_0;
            decl_line_matches(pv.image, pv.tag_name, pv.suffix, line)
        }),
{
    let rest0 = line.skip(4);
    let b = blank_run(rest0) as int;
    let rest1 = rest0.skip(b);
    let t = crate::chars::nonblank_run(rest1) as int;
    let token = rest1.take(t);
    let after = rest1.skip(t);
    let suffix = after.skip(blank_run(after) as int);
    let c = crate::read::last_split(token)->Some_0;
    let image = token.take(c);
    let tag = token.skip(c + 1);
    crate::read::lemma_last_split_props(token, token.len());
    crate::chars::lemma_blank_run_props(rest0);
    crate::chars::lemma_blank_run_props(after);
    crate::chars::lemma_nonblank_run_props(rest1);
    assert(rest0[0] == line[4]);
    assert(blank_run(rest0) >= 1);
    let p0 = 4 + blank_run(line.skip(4));
    assert(p0 == 4 + b);
    assert(line.skip(p0 as int) =~= rest1);
    assert(1 <= c && c + 1 < t);
    // the image sits verbatim right after the blanks
    assert(rest1.take(c) =~= image);
    assert(line.skip(p0 as int).take(image.len() as int) == image);
    let p1 = p0 + image.len();
    assert(line[p1 as int] == rest1[c]);
    assert(rest1[c] == token[c]);
    // the tag literal follows the colon and matches its own pattern, and the
    // text after it starts with a blank (or ends), so greedy matching stops
    // exactly at the literal's end
    crate::pattern::lemma_shape_round_trip(tag);
    assert(line.skip(p1 as int + 1) =~= rest1.skip(c + 1));
    assert(rest1.skip(c + 1) =~= tag + after);
    if after.len() > 0 {
        assert(after[0] == rest1[t]);
        assert(crate::chars::is_blank(after[0]));
        assert(!crate::chars::is_digit(after[0]));
    }
    crate::pattern::lemma_munch_extend(shape_of(tag), tag, after);
    assert(munch(shape_of(tag), line.skip(p1 as int + 1)) == Some(
        (tag.len(), crate::pattern::pat_caps(shape_of(tag), tag)),
    ));
    assert(line.skip(p1 as int + 1 + tag.len()) =~= after);
    // the suffix is what stands after the blanks that follow the tag
    if suffix.len() == 0 {
        assert(blank_run(after) == after.len());
    } else {
        assert(after.len() > 0);
        assert(blank_run(after) >= 1);
    }
}

/// Some line at or after `j` matching implies the search finds one.
pub proof fn lemma_first_match_exists(
    image: Seq<char>,
    tag_name: Seq<char>,
    suffix: Seq<char>,
    lines: Seq<Seq<char>>,
    i: int,
    j: int,
)
    requires
        0 <= i <= j < lines.len(),
        decl_line_matches(image, tag_name, suffix, lines[j]),
    ensures
        first_match_from(image, tag_name, suffix, lines, i) is Some,
    decreases j - i,
{
    if !decl_line_matches(image, tag_name, suffix, lines[i]) {
        lemma_first_match_exists(image, tag_name, suffix, lines, i + 1, j);
    }
}

/// Scanning and patching cohere end to end: every reference the scanner
/// produces can be re-located in its own manifest's original text, so
/// patching it there succeeds, whatever replacement tag is chosen.
pub proof fn lemma_scan_patch_coherent(
    contents: Seq<Seq<char>>,
    pv: ParentView,
    new_name: Seq<char>,
)
    requires
        crate::read::scan_result(contents).contains(pv),
    ensures
        0 <= pv.dockerfile < contents.len(),
        spec_patch(pv.image, pv.tag_name, new_name, pv.suffix, contents[pv.dockerfile]) is Some,
{
    crate::read::lemma_scan_result_membership(contents, pv);
    let content = contents[pv.dockerfile];
    let j = choose|j: int|
        0 <= j < lines_of(content).len() && crate::read::line_parent(
            pv.dockerfile,
            #[trigger] lines_of(content)[j],
        ) == Some(pv);
    lemma_scanned_declaration_matches(pv.dockerfile, lines_of(content)[j]);
    lemma_first_match_exists(pv.image, pv.tag_name, pv.suffix, lines_of(content), 0, j);
}

/// Index of the first line at or after `i` that matches the declaration.
pub open spec fn first_match_from(
    image: Seq<char>,
    tag_name: Seq<char>,
    suffix: Seq<char>,
    lines: Seq<Seq<char>>,
    i: int,
) -> Option<int>
    decreases lines.len() - i,
{
    if i < 0 || i >= lines.len() {
        None
    } else if decl_line_matches(image, tag_name, suffix, lines[i]) {
        Some(i)
    } else {
        first_match_from(image, tag_name, suffix, lines, i + 1)
    }
}

pub open spec fn first_match_line(
    image: Seq<char>,
    tag_name: Seq<char>,
    suffix: Seq<char>,
    lines: Seq<Seq<char>>,
) -> Option<int> {
    first_match_from(image, tag_name, suffix, lines, 0)
}

/// Puts lines back together with single line breaks: the inverse of
/// `lines_of` for break-free lines.
pub open spec fn join_lines(lines: Seq<Seq<char>>) -> Seq<char>
    decreases lines.len(),
{
    if lines.len() == 0 {
        Seq::<char>::empty()
    } else if lines.len() == 1 {
        lines[0]
    } else {
        lines[0] + seq!['\n'] + join_lines(lines.skip(1))
    }
}

/// One rewrite: the first line matching the declaration of (`image`, the
/// shape of `tag_name`, `suffix`) is replaced with the normalized line naming
/// `new_name`; every other line stays. `None` when no line matches.
pub open spec fn spec_patch(
    image: Seq<char>,
    tag_name: Seq<char>,
    new_name: Seq<char>,
    suffix: Seq<char>,
    content: Seq<char>,
) -> Option<Seq<char>> {
    let lines = lines_of(content);
    match first_match_line(image, tag_name, suffix, lines) {
        None => None,
        Some(k) => Some(join_lines(lines.update(k, decl_replacement(image, new_name, suffix)))),
    }
}

/// Facts that follow from the value of `line_run`.
pub proof fn lemma_line_run_props(s: Seq<char>)
    ensures
        crate::chars::line_run(s) <= s.len(),
        forall|j: int| 0 <= j < crate::chars::line_run(s) ==> s[j] != '\n',
    decreases s.len(),
{
    if s.len() > 0 && s[0] != '\n' {
        lemma_line_run_props(s.skip(1));
        assert forall|j: int| 0 <= j < crate::chars::line_run(s) implies s[j] != '\n' by {
            if j > 0 {
                assert(s.skip(1)[j - 1] == s[j]);
            }
        }
    }
}

/// No line produced by splitting contains a line break, and there is always
/// at least one line.
pub proof fn lemma_lines_of_no_newline(s: Seq<char>)
    ensures
        lines_of(s).len() >= 1,
        forall|i: int, j: int|
            0 <= i < lines_of(s).len() && 0 <= j < lines_of(s)[i].len() ==> (#[trigger] lines_of(
                s,
            )[i][j]) != '\n',
    decreases s.len(),
{
    lemma_line_run_props(s);
    let k = crate::chars::line_run(s) as int;
    if k == s.len() {
        assert(lines_of(s) == seq![s]);
        assert forall|i: int, j: int|
            0 <= i < lines_of(s).len() && 0 <= j < lines_of(s)[i].len() implies (#[trigger] lines_of(
            s,
        )[i][j]) != '\n' by {
            assert(lines_of(s)[i] == s);
        }
    } else {
        let tail = s.skip(k + 1);
        lemma_lines_of_no_newline(tail);
        assert(lines_of(s) == seq![s.take(k)] + lines_of(tail));
        assert forall|i: int, j: int|
            0 <= i < lines_of(s).len() && 0 <= j < lines_of(s)[i].len() implies (#[trigger] lines_of(
            s,
        )[i][j]) != '\n' by {
            if i == 0 {
                assert(lines_of(s)[0] == s.take(k));
                assert(s.take(k)[j] == s[j]);
            } else {
                assert(lines_of(s)[i] == lines_of(tail)[i - 1]);
            }
        }
    }
}

/// Splitting undoes joining, for break-free lines.
pub proof fn lemma_join_lines_inverse(ls: Seq<Seq<char>>)
    requires
        ls.len() >= 1,
        forall|i: int, j: int|
            0 <= i < ls.len() && 0 <= j < ls[i].len() ==> (#[trigger] ls[i][j]) != '\n',
    ensures
        lines_of(join_lines(ls)) == ls,
    decreases ls.len(),
{
    if ls.len() == 1 {
        let u = ls[0];
        assert(join_lines(ls) == u);
        assert forall|j: int| 0 <= j < u.len() implies u[j] != '\n' by {
            assert(ls[0][j] != '\n');
        }
        crate::chars::lemma_line_run_is(u, u.len() as int);
        assert(lines_of(u) == seq![u]);
        assert(seq![u] =~= ls);
    } else {
        let head = ls[0];
        let rest = ls.skip(1);
        assert forall|i: int, j: int|
            0 <= i < rest.len() && 0 <= j < rest[i].len() implies (#[trigger] rest[i][j]) != '\n' by {
            assert(rest[i] == ls[i + 1]);
        }
        lemma_join_lines_inverse(rest);
        let u = join_lines(ls);
        assert(u == head + seq!['\n'] + join_lines(rest));
        assert forall|j: int| 0 <= j < head.len() implies u[j] != '\n' by {
            assert(u[j] == ls[0][j]);
        }
        assert(u[head.len() as int] == '\n');
        crate::chars::lemma_line_run_is(u, head.len() as int);
        assert(u.take(head.len() as int) =~= head);
        assert(u.skip(head.len() as int + 1) =~= join_lines(rest));
        assert(lines_of(u) == seq![head] + lines_of(join_lines(rest)));
        assert(seq![head] + rest =~= ls);
    }
}

/// A found first match is in range, matches, and nothing before it does.
pub proof fn lemma_first_match_props(
    image: Seq<char>,
    tag_name: Seq<char>,
    suffix: Seq<char>,
    lines: Seq<Seq<char>>,
    i: int,
)
    requires
        first_match_from(image, tag_name, suffix, lines, i) is Some,
        0 <= i,
    ensures
        ({
            let k = first_match_from(image, tag_name, suffix, lines, i)->Some_0;
            &&& i <= k < lines.len()
            &&& decl_line_matches(image, tag_name, suffix, lines[k])
            &&& forall|j: int| i <= j < k ==> !decl_line_matches(image, tag_name, suffix, lines[j])
        }),
    decreases lines.len() - i,
{
    if i < lines.len() && !decl_line_matches(image, tag_name, suffix, lines[i]) {
        lemma_first_match_props(image, tag_name, suffix, lines, i + 1);
    }
}

/// The patcher never alters text outside the single matched declaration: the
/// rewritten text has the same lines as the original, except that exactly the
/// first matching line — and only it — is replaced by the normalized
/// declaration of the new tag.
pub proof fn lemma_patch_touches_one_line(
    image: Seq<char>,
    tag_name: Seq<char>,
    new_name: Seq<char>,
    suffix: Seq<char>,
    content: Seq<char>,
)
    requires
        spec_patch(image, tag_name, new_name, suffix, content) is Some,
        forall|j: int| 0 <= j < image.len() ==> image[j] != '\n',
        forall|j: int| 0 <= j < new_name.len() ==> new_name[j] != '\n',
        forall|j: int| 0 <= j < suffix.len() ==> suffix[j] != '\n',
    ensures
        ({
            let lines = lines_of(content);
            let k = first_match_line(image, tag_name, suffix, lines)->Some_0;
            let out = spec_patch(image, tag_name, new_name, suffix, content)->Some_0;
            &&& 0 <= k < lines.len()
            &&& decl_line_matches(image, tag_name, suffix, lines[k])
            &&& forall|j: int| 0 <= j < k ==> !decl_line_matches(image, tag_name, suffix, lines[j])
            &&& lines_of(out) == lines.update(k, decl_replacement(image, new_name, suffix))
            &&& forall|i: int|
                0 <= i < lines.len() && i != k ==> #[trigger] lines_of(out)[i] == lines[i]
        }),
{
    let lines = lines_of(content);
    let k = first_match_line(image, tag_name, suffix, lines)->Some_0;
    let repl = decl_replacement(image, new_name, suffix);
    let updated = lines.update(k, repl);
    lemma_first_match_props(image, tag_name, suffix, lines, 0);
    lemma_lines_of_no_newline(content);
    assert forall|j: int| 0 <= j < repl.len() implies repl[j] != '\n' by {
        let head = seq!['F', 'R', 'O', 'M', ' '] + image + seq![':'];
        if j < head.len() {
            if 5 <= j < 5 + image.len() {
                assert(repl[j] == image[j - 5]);
            }
        } else if j < head.len() + new_name.len() {
            assert(repl[j] == new_name[j - head.len()]);
        } else {
            if suffix.len() > 0 && j > head.len() + new_name.len() {
                assert(repl[j] == suffix[j - (head.len() + new_name.len() + 1)]);
            }
        }
    }
    assert forall|i: int, j: int|
        0 <= i < updated.len() && 0 <= j < updated[i].len() implies (#[trigger] updated[i][j])
        != '\n' by {
        if i != k {
            assert(updated[i] == lines[i]);
        }
    }
    lemma_join_lines_inverse(updated);
    assert(lines_of(spec_patch(image, tag_name, new_name, suffix, content)->Some_0) == updated);
    assert forall|i: int|
        0 <= i < lines.len() && i != k implies #[trigger] lines_of(
        spec_patch(image, tag_name, new_name, suffix, content)->Some_0,
    )[i] == lines[i] by {
        assert(updated[i] == lines[i]);
    }
}

exec fn push_chars(out: &mut Vec<char>, l: &Vec<char>)
    ensures
        final(out)@ == old(out)@ + l@,
{
    let m: usize = l.len();
    let mut i: usize = 0;
    proof {
        assert(out@ =~= old(out)@ + l@.take(0));
    }
    while i < m
        invariant
            i <= m,
            m == l@.len(),
            out@ == old(out)@ + l@.take(i as int),
        decreases m - i,
    {
        out.push(l[i]);
        proof {
            assert(out@ =~= old(out)@ + l@.take(i as int + 1));
        }
        i = i + 1;
    }
    proof {
        assert(l@.take(m as int) =~= l@);
    }
}

exec fn join_exec(lines: &Vec<Vec<char>>) -> (r: Vec<char>)
    ensures
        r@ == join_lines(crate::pattern::caps_view(lines@)),
{
    let ghost lv = crate::pattern::caps_view(lines@);
    let n: usize = lines.len();
    let mut out: Vec<char> = Vec::new();
    let mut i: usize = 0;
    proof {
        if n > 0 {
            assert(lv.skip(0) =~= lv);
            assert(out@ + join_lines(lv) =~= join_lines(lv));
        }
    }
    while i < n
        invariant
            i <= n,
            n == lines@.len(),
            lv == crate::pattern::caps_view(lines@),
            i < n ==> join_lines(lv) == out@ + join_lines(lv.skip(i as int)),
            i == n ==> join_lines(lv) == out@,
        decreases n - i,
    {
        let ghost pre = out@;
        proof {
            assert(lv.skip(i as int)[0] == lv[i as int]);
            assert(lines@[i as int]@ == lv[i as int]);
        }
        push_chars(&mut out, &lines[i]);
        if i + 1 < n {
            out.push('\n');
            proof {
                assert(lv.skip(i as int).len() >= 2);
                assert(lv.skip(i as int).skip(1) =~= lv.skip(i as int + 1));
                assert(join_lines(lv.skip(i as int)) == lv[i as int] + seq!['\n'] + join_lines(
                    lv.skip(i as int + 1),
                ));
                assert(out@ =~= pre + (lv[i as int] + seq!['\n']));
                assert(pre + (lv[i as int] + seq!['\n']) + join_lines(lv.skip(i as int + 1))
                    =~= pre + join_lines(lv.skip(i as int)));
            }
        } else {
            proof {
                assert(lv.skip(i as int).len() == 1);
                assert(join_lines(lv.skip(i as int)) == lv[i as int]);
                assert(out@ =~= pre + join_lines(lv.skip(i as int)));
            }
        }
        i = i + 1;
    }
    proof {
        if n == 0 {
            assert(join_lines(lv) =~= Seq::<char>::empty());
            assert(out@ =~= Seq::<char>::empty());
        }
    }
    out
}

/// Applies one rewrite to a text held as characters; `None` exactly when no
/// line matches the declaration.
exec fn patch_text(
    image: &Vec<char>,
    Ghost(tag_name): Ghost<Seq<char>>,
    tag_pat: &Pattern,
    suffix: &Vec<char>,
    new_name: &Vec<char>,
    content: &[char],
) -> (r: Option<Vec<char>>)
    requires
        tag_pat.segs_spec() == shape_of(tag_name),
    ensures
        r is Some <==> spec_patch(image@, tag_name, new_name@, suffix@, content@) is Some,
        r matches Some(c) ==> c@ == spec_patch(
            image@,
            tag_name,
            new_name@,
            suffix@,
            content@,
        )->Some_0,
{
    let mut lines = split_lines(content);
    let ghost lv = lines_of(content@);
    proof {
        assert(crate::pattern::caps_view(lines@) == lv);
    }
    let n: usize = lines.len();
    let mut k: usize = 0;
    while k < n
        invariant
            k <= n,
            n == lines@.len(),
            lv == crate::pattern::caps_view(lines@),
            lv == lines_of(content@),
            tag_pat.segs_spec() == shape_of(tag_name),
            first_match_line(image@, tag_name, suffix@, lv) == first_match_from(
                image@,
                tag_name,
                suffix@,
                lv,
                k as int,
            ),
        decreases n - k,
    {
        proof {
            assert(lines@[k as int]@ == lv[k as int]);
        }
        if decl_match_line_exec(image, Ghost(tag_name), tag_pat, suffix, lines[k].as_slice()) {
            let repl = decl_replacement_exec(image, new_name, suffix);
            let ghost pre = lines@;
            lines.remove(k);
            lines.insert(k, repl);
            proof {
                assert(lines@ =~= pre.update(k as int, repl));
                assert(crate::pattern::caps_view(lines@) =~= lv.update(
                    k as int,
                    decl_replacement(image@, new_name@, suffix@),
                ));
                assert(first_match_line(image@, tag_name, suffix@, lv) == Some(k as int));
            }
            let out = join_exec(&lines);
            return Some(out);
        }
        k = k + 1;
    }
    proof {
        assert(first_match_from(image@, tag_name, suffix@, lv, n as int) is None);
    }
    None
}

/// The views of the (path, rewritten content) pairs the patcher builds.
pub open spec fn entries_view(es: Seq<(String, Vec<char>)>) -> Seq<(Seq<char>, Seq<char>)> {
    es.map(|i: int, e: (String, Vec<char>)| (e.0@, e.1@))
}

/// First entry recorded for `path`.
pub open spec fn upd_find_from(acc: Seq<(Seq<char>, Seq<char>)>, path: Seq<char>, i: int) -> Option<
    int,
>
    decreases acc.len() - i,
{
    if i < 0 || i >= acc.len() {
        None
    } else if acc[i].0 == path {
        Some(i)
    } else {
        upd_find_from(acc, path, i + 1)
    }
}

pub open spec fn upd_find(acc: Seq<(Seq<char>, Seq<char>)>, path: Seq<char>) -> Option<int> {
    upd_find_from(acc, path, 0)
}

/// The views of the resolutions handed to the patcher.
pub open spec fn res_views(rs: Seq<(Parent, Tag)>) -> Seq<(ParentView, Seq<char>)> {
    rs.map(|i: int, r: (Parent, Tag)| (parent_view(&r.0), r.1.name_spec()))
}

/// Applies one resolution: the manifest's entry — or its original text on
/// first touch — gets the rewrite, so later rewrites to the same manifest see
/// earlier ones.
pub open spec fn apply_one(
    paths: Seq<Seq<char>>,
    contents: Seq<Seq<char>>,
    acc: Seq<(Seq<char>, Seq<char>)>,
    pv: ParentView,
    new_name: Seq<char>,
) -> Option<Seq<(Seq<char>, Seq<char>)>> {
    let path = paths[pv.dockerfile];
    match upd_find(acc, path) {
        Some(i) => match spec_patch(pv.image, pv.tag_name, new_name, pv.suffix, acc[i].1) {
            None => None,
            Some(c) => Some(acc.update(i, (path, c))),
        },
        None => match spec_patch(pv.image, pv.tag_name, new_name, pv.suffix, contents[pv.dockerfile],
        ) {
            None => None,
            Some(c) => Some(acc.push((path, c))),
        },
    }
}

/// Applies all resolutions in order; `None` when one of them cannot be
/// re-located in the text being patched.
pub open spec fn apply_all(
    paths: Seq<Seq<char>>,
    contents: Seq<Seq<char>>,
    rs: Seq<(ParentView, Seq<char>)>,
    acc: Seq<(Seq<char>, Seq<char>)>,
) -> Option<Seq<(Seq<char>, Seq<char>)>>
    decreases rs.len(),
{
    if rs.len() == 0 {
        Some(acc)
    } else {
        match apply_one(paths, contents, acc, rs[0].0, rs[0].1) {
            None => None,
            Some(acc2) => apply_all(paths, contents, rs.skip(1), acc2),
        }
    }
}

pub open spec fn files_paths(files: Seq<Dockerfile>) -> Seq<Seq<char>> {
    files.map(|i: int, f: Dockerfile| f.path_spec())
}

/// The final (path, content) pairs as the caller sees them.
pub open spec fn pairs_view(ps: Seq<(String, String)>) -> Seq<(Seq<char>, Seq<char>)> {
    ps.map(|i: int, e: (String, String)| (e.0@, e.1@))
}

exec fn find_entry(acc: &Vec<(String, Vec<char>)>, path: &String) -> (r: Option<usize>)
    ensures
        match r {
            Some(i) => upd_find(entries_view(acc@), path@) == Some(i as int) && i < acc@.len(),
            None => upd_find(entries_view(acc@), path@) is None,
        },
{
    let ghost av = entries_view(acc@);
    let n: usize = acc.len();
    let mut i: usize = 0;
    while i < n
        invariant
            i <= n,
            n == acc@.len(),
            av == entries_view(acc@),
            upd_find(av, path@) == upd_find_from(av, path@, i as int),
        decreases n - i,
    {
        proof {
            assert(av[i as int] == (acc@[i as int].0@, acc@[i as int].1@));
        }
        if string_eq(&acc[i].0, path) {
            return Some(i);
        }
        i = i + 1;
    }
    None
}

/// Rewrites every resolved declaration onto its manifest's text, grouping
/// resolutions of one manifest so that later rewrites see earlier ones, and
/// returns the final text per manifest path, in order of first touch. Fails
/// — as an internal invariant violation surfaced as an error — exactly when
/// some declaration cannot be re-located.
pub exec fn updated_dockerfiles_content(
    latest_tags: &Vec<(Parent, Tag)>,
    files: &Vec<Dockerfile>,
) -> (r: Result<Vec<(String, String)>, BumpError>)
    requires
        forall|i: int|
            0 <= i < latest_tags@.len() ==> 0 <= (#[trigger] latest_tags@[i]).0.dockerfile_spec()
                < files@.len(),
    ensures
        r is Ok <==> apply_all(
            files_paths(files@),
            files_contents(files@),
            res_views(latest_tags@),
            Seq::<(Seq<char>, Seq<char>)>::empty(),
        ) is Some,
        r matches Ok(ps) ==> pairs_view(ps@) == apply_all(
            files_paths(files@),
            files_contents(files@),
            res_views(latest_tags@),
            Seq::<(Seq<char>, Seq<char>)>::empty(),
        )->Some_0,
        r is Err ==> r matches Err(BumpError::DeclarationNotFound { .. }),
{
    let ghost paths = files_paths(files@);
    let ghost contents = files_contents(files@);
    let ghost rv = res_views(latest_tags@);
    let ghost target = apply_all(paths, contents, rv, Seq::<(Seq<char>, Seq<char>)>::empty());
    let n: usize = latest_tags.len();
    let mut acc: Vec<(String, Vec<char>)> = Vec::new();
    let mut ri: usize = 0;
    proof {
        assert(entries_view(acc@) =~= Seq::<(Seq<char>, Seq<char>)>::empty());
        assert(rv.skip(0) =~= rv);
    }
    while ri < n
        invariant
            ri <= n,
            n == latest_tags@.len(),
            paths == files_paths(files@),
            contents == files_contents(files@),
            rv == res_views(latest_tags@),
            target == apply_all(paths, contents, rv, Seq::<(Seq<char>, Seq<char>)>::empty()),
            forall|i: int|
                0 <= i < latest_tags@.len() ==> 0 <= (#[trigger] latest_tags@[i]).0.dockerfile_spec()
                    < files@.len(),
            apply_all(paths, contents, rv.skip(ri as int), entries_view(acc@)) == target,
        decreases n - ri,
    {
        let ghost pv = parent_view(&latest_tags@[ri as int].0);
        let ghost new_name = latest_tags@[ri as int].1.name_spec();
        proof {
            assert(rv[ri as int] == (pv, new_name));
            assert(rv.skip(ri as int)[0] == rv[ri as int]);
            assert(rv.skip(ri as int).skip(1) =~= rv.skip(ri as int + 1));
        }
        let p = &latest_tags[ri].0;
        let t = &latest_tags[ri].1;
        let image_v = str_to_chars(p.image_name().as_str());
        let suffix_v = str_to_chars(p.suffix().as_str());
        let new_name_v = str_to_chars(t.name().as_str());
        let tag_pat = tag_to_re(p.tag().name().as_str());
        let fidx = p.dockerfile();
        let path = files[fidx].path();
        proof {
            assert(paths[pv.dockerfile] == files@[pv.dockerfile].path_spec());
            assert(contents[pv.dockerfile] == files@[pv.dockerfile].content_spec());
        }
        let found = find_entry(&acc, path);
        let patched = match found {
            Some(ei) => {
                proof {
                    assert(entries_view(acc@)[ei as int] == (acc@[ei as int].0@, acc@[ei as int].1@));
                }
                patch_text(
                    &image_v,
                    Ghost(pv.tag_name),
                    &tag_pat,
                    &suffix_v,
                    &new_name_v,
                    acc[ei].1.as_slice(),
                )
            },
            None => {
                let cs = str_to_chars(files[fidx].content().as_str());
                patch_text(&image_v, Ghost(pv.tag_name), &tag_pat, &suffix_v, &new_name_v, cs.as_slice())
            },
        };
        match patched {
            None => {
                proof {
                    assert(apply_one(paths, contents, entries_view(acc@), pv, new_name) is None);
                    assert(apply_all(paths, contents, rv.skip(ri as int), entries_view(acc@))
                        is None);
                }
                return Err(BumpError::DeclarationNotFound { image: p.image_name().clone() });
            },
            Some(c) => {
                let ghost pre = entries_view(acc@);
                match found {
                    Some(ei) => {
                        let path_owned = path.clone();
                        acc.remove(ei);
                        acc.insert(ei, (path_owned, c));
                        proof {
                            assert(entries_view(acc@) =~= pre.update(
                                ei as int,
                                (paths[pv.dockerfile], c@),
                            ));
                            assert(apply_one(paths, contents, pre, pv, new_name) == Some(
                                entries_view(acc@),
                            ));
                        }
                    },
                    None => {
                        let path_owned = path.clone();
                        acc.push((path_owned, c));
                        proof {
                            assert(entries_view(acc@) =~= pre.push((paths[pv.dockerfile], c@)));
                            assert(apply_one(paths, contents, pre, pv, new_name) == Some(
                                entries_view(acc@),
                            ));
                        }
                    },
                }
            },
        }
        ri = ri + 1;
    }
    proof {
        assert(rv.skip(n as int) =~= Seq::<(ParentView, Seq<char>)>::empty());
        assert(target == Some(entries_view(acc@)));
    }
    let m: usize = acc.len();
    let mut out: Vec<(String, String)> = Vec::new();
    let mut oi: usize = 0;
    proof {
        assert(pairs_view(out@) =~= Seq::<(Seq<char>, Seq<char>)>::empty());
        assert(pairs_view(out@) =~= entries_view(acc@).take(0));
    }
    while oi < m
        invariant
            oi <= m,
            m == acc@.len(),
            pairs_view(out@) == entries_view(acc@).take(oi as int),
        decreases m - oi,
    {
        let pathc = acc[oi].0.clone();
        let content = chars_to_string(&acc[oi].1);
        let ghost preo = out@;
        out.push((pathc, content));
        proof {
            assert(entries_view(acc@)[oi as int] == (acc@[oi as int].0@, acc@[oi as int].1@));
            assert(pairs_view(preo).len() == preo.len());
            assert(preo.len() == oi);
            assert(out@ == preo.push((pathc, content)));
            assert forall|j: int| 0 <= j < oi + 1 implies pairs_view(out@)[j] == entries_view(
                acc@,
            ).take(oi as int + 1)[j] by {
                assert(pairs_view(out@)[j] == (out@[j].0@, out@[j].1@));
                if j < oi {
                    assert(out@[j] == preo[j]);
                    assert(pairs_view(preo)[j] == (preo[j].0@, preo[j].1@));
                    assert(pairs_view(preo)[j] == entries_view(acc@).take(oi as int)[j]);
                } else {
                    assert(out@[j] == (pathc, content));
                }
            }
            assert(pairs_view(out@) =~= entries_view(acc@).take(oi as int + 1));
        }
        oi = oi + 1;
    }
    proof {
        assert(entries_view(acc@).take(m as int) =~= entries_view(acc@));
    }
    Ok(out)
}

} // verus!
