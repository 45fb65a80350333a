//! Structural tag patterns. A pattern is derived from an observed tag
//! literal: every maximal run of decimal digits becomes a capturing group and
//! every other character is matched literally. Matching is anchored: a
//! candidate matches only if the whole candidate decomposes along the
//! pattern's segments. Because the literal segments of a derived pattern
//! never contain digits, taking the maximal digit run at each group is the
//! unique way to match, so the greedy semantics below is exact.

use vstd::prelude::*;

use crate::chars::is_digit;

verus! {

/// One segment of a pattern: a fixed literal or a digit-run capture group.
#[derive(Debug)]
pub enum Seg {
    Lit(Vec<char>),
    Num,
}

/// The mathematical value of a segment.
pub enum SegView {
    Lit(Seq<char>),
    Num,
}

pub open spec fn seg_view(g: Seg) -> SegView {
    match g {
        Seg::Lit(l) => SegView::Lit(l@),
        Seg::Num => SegView::Num,
    }
}

pub open spec fn segs_view(segs: Seq<Seg>) -> Seq<SegView> {
    segs.map(|i: int, g: Seg| seg_view(g))
}

pub open spec fn caps_view(cs: Seq<Vec<char>>) -> Seq<Seq<char>> {
    cs.map(|i: int, v: Vec<char>| v@)
}

/// Length of the maximal digit run at the front of `s`.
pub open spec fn digit_run(s: Seq<char>) -> nat
    decreases s.len(),
{
    if s.len() == 0 || !is_digit(s[0]) {
        0
    } else {
        1 + digit_run(s.skip(1))
    }
}

/// Length of the maximal digit-free run at the front of `s`.
pub open spec fn nondigit_run(s: Seq<char>) -> nat
    decreases s.len(),
{
    if s.len() == 0 || is_digit(s[0]) {
        0
    } else {
        1 + nondigit_run(s.skip(1))
    }
}

/// A run never extends past the end of the string.
pub proof fn lemma_digit_run_le(s: Seq<char>)
    ensures
        digit_run(s) <= s.len(),
    decreases s.len(),
{
    if s.len() > 0 && is_digit(s[0]) {
        lemma_digit_run_le(s.skip(1));
    }
}

pub proof fn lemma_nondigit_run_le(s: Seq<char>)
    ensures
        nondigit_run(s) <= s.len(),
    decreases s.len(),
{
    if s.len() > 0 && !is_digit(s[0]) {
        lemma_nondigit_run_le(s.skip(1));
    }
}

/// `digit_run` answers `n` exactly when the first `n` characters are digits
/// and the run stops there.
pub proof fn lemma_digit_run_is(s: Seq<char>, n: int)
    requires
        0 <= n <= s.len(),
        forall|i: int| 0 <= i < n ==> is_digit(s[i]),
        n == s.len() || !is_digit(s[n]),
    ensures
        digit_run(s) == n,
    decreases n,
{
    if n > 0 {
        assert(is_digit(s[0]));
        lemma_digit_run_is(s.skip(1), n - 1);
    }
}

pub proof fn lemma_nondigit_run_is(s: Seq<char>, n: int)
    requires
        0 <= n <= s.len(),
        forall|i: int| 0 <= i < n ==> !is_digit(s[i]),
        n == s.len() || is_digit(s[n]),
    ensures
        nondigit_run(s) == n,
    decreases n,
{
    if n > 0 {
        assert(!is_digit(s[0]));
        lemma_nondigit_run_is(s.skip(1), n - 1);
    }
}

/// Greedy anchored matching of `segs` against a prefix of `s`: `Some((n, c))`
/// means the segments consume exactly the first `n` characters and the digit
/// groups capture `c`, in order. A literal consumes itself; a group consumes
/// the maximal digit run, which must be nonempty.
pub open spec fn munch(segs: Seq<SegView>, s: Seq<char>) -> Option<(nat, Seq<Seq<char>>)>
    decreases segs.len(),
{
    if segs.len() == 0 {
        Some(((0 as nat), Seq::<Seq<char>>::empty()))
    } else {
        match segs[0] {
            SegView::Lit(l) => {
                if l.len() <= s.len() && s.take(l.len() as int) == l {
                    match munch(segs.skip(1), s.skip(l.len() as int)) {
                        Some(rest) => Some(((l.len() + rest.0) as nat, rest.1)),
                        None => None,
                    }
                } else {
                    None
                }
            },
            SegView::Num => {
                let k = digit_run(s);
                if k > 0 {
                    match munch(segs.skip(1), s.skip(k as int)) {
                        Some(rest) => Some(((k + rest.0) as nat, seq![s.take(k as int)] + rest.1)),
                        None => None,
                    }
                } else {
                    None
                }
            },
        }
    }
}

/// Whole-string match: the segments consume all of `s`.
pub open spec fn pat_matches(segs: Seq<SegView>, s: Seq<char>) -> bool {
    munch(segs, s) matches Some(r) && r.0 == s.len()
}

/// The groups captured by a whole-string match.
pub open spec fn pat_caps(segs: Seq<SegView>, s: Seq<char>) -> Seq<Seq<char>> {
    munch(segs, s)->Some_0.1
}

/// The segments derived from a tag literal: its maximal digit runs become
/// groups, everything between them stays literal.
pub open spec fn shape_of(s: Seq<char>) -> Seq<SegView>
    decreases s.len(),
    via shape_of_dec
{
    if s.len() == 0 {
        Seq::<SegView>::empty()
    } else if is_digit(s[0]) {
        let k = digit_run(s);
        seq![SegView::Num] + shape_of(s.skip(k as int))
    } else {
        let k = nondigit_run(s);
        seq![SegView::Lit(s.take(k as int))] + shape_of(s.skip(k as int))
    }
}

#[via_fn]
proof fn shape_of_dec(s: Seq<char>) {
    if s.len() > 0 {
        lemma_digit_run_le(s);
        lemma_nondigit_run_le(s);
        if is_digit(s[0]) {
            assert(digit_run(s) >= 1);
        } else {
            assert(nondigit_run(s) >= 1);
        }
    }
}

/// The maximal digit runs of a string, in order: exactly what the groups of
/// its own derived pattern capture.
pub open spec fn digit_runs(s: Seq<char>) -> Seq<Seq<char>>
    decreases s.len(),
    via digit_runs_dec
{
    if s.len() == 0 {
        Seq::<Seq<char>>::empty()
    } else if is_digit(s[0]) {
        let k = digit_run(s);
        seq![s.take(k as int)] + digit_runs(s.skip(k as int))
    } else {
        let k = nondigit_run(s);
        digit_runs(s.skip(k as int))
    }
}

#[via_fn]
proof fn digit_runs_dec(s: Seq<char>) {
    if s.len() > 0 {
        lemma_digit_run_le(s);
        lemma_nondigit_run_le(s);
        if is_digit(s[0]) {
            assert(digit_run(s) >= 1);
        } else {
            assert(nondigit_run(s) >= 1);
        }
    }
}

/// Every string round-trips through its own derived pattern: the pattern
/// matches it in full and the groups capture exactly its digit runs.
pub proof fn lemma_shape_round_trip(t: Seq<char>)
    ensures
        munch(shape_of(t), t) == Some((t.len(), digit_runs(t))),
        pat_matches(shape_of(t), t),
        pat_caps(shape_of(t), t) == digit_runs(t),
    decreases t.len(),
{
    if t.len() == 0 {
        assert(munch(shape_of(t), t) == Some(((0 as nat), Seq::<Seq<char>>::empty())));
    } else if is_digit(t[0]) {
        let k = digit_run(t) as int;
        lemma_digit_run_le(t);
        assert(k >= 1);
        let segs = shape_of(t);
        let tail = t.skip(k);
        lemma_shape_round_trip(tail);
        assert(segs == seq![SegView::Num] + shape_of(tail));
        assert(segs[0] == SegView::Num);
        assert(segs.skip(1) =~= shape_of(tail));
        assert(munch(segs, t) == Some((((k + tail.len()) as nat), seq![t.take(k)] + digit_runs(
            tail,
        ))));
        assert(k + tail.len() == t.len());
        assert(digit_runs(t) == seq![t.take(k)] + digit_runs(tail));
    } else {
        let k = nondigit_run(t) as int;
        lemma_nondigit_run_le(t);
        assert(k >= 1);
        let segs = shape_of(t);
        let tail = t.skip(k);
        let l = t.take(k);
        lemma_shape_round_trip(tail);
        assert(segs == seq![SegView::Lit(l)] + shape_of(tail));
        assert(segs[0] == SegView::Lit(l));
        assert(segs.skip(1) =~= shape_of(tail));
        assert(l.len() == k);
        assert(t.take(l.len() as int) == l);
        assert(munch(segs, t) == Some((((k + tail.len()) as nat), digit_runs(tail))));
        assert(k + tail.len() == t.len());
        assert(digit_runs(t) == digit_runs(tail));
    }
}

/// A well-formed segment: a literal is nonempty and digit-free.
pub open spec fn seg_wf(g: SegView) -> bool {
    match g {
        SegView::Lit(l) => l.len() > 0 && (forall|j: int| 0 <= j < l.len() ==> !is_digit(l[j])),
        SegView::Num => true,
    }
}

/// The shape every derived pattern has: well-formed segments that alternate
/// between literals and groups. This is what makes greedy matching exact.
pub open spec fn wf_shape(segs: Seq<SegView>) -> bool {
    &&& forall|i: int| 0 <= i < segs.len() ==> seg_wf(#[trigger] segs[i])
    &&& forall|i: int|
        0 <= i && i + 1 < segs.len() ==> ((#[trigger] segs[i]) is Num != segs[i + 1] is Num)
}

/// Facts that follow from the value of `digit_run`.
pub proof fn lemma_digit_run_props(s: Seq<char>)
    ensures
        digit_run(s) <= s.len(),
        forall|j: int| 0 <= j < digit_run(s) ==> is_digit(s[j]),
        digit_run(s) < s.len() ==> !is_digit(s[digit_run(s) as int]),
    decreases s.len(),
{
    if s.len() > 0 && is_digit(s[0]) {
        lemma_digit_run_props(s.skip(1));
        assert forall|j: int| 0 <= j < digit_run(s) implies is_digit(s[j]) by {
            if j > 0 {
                assert(s.skip(1)[j - 1] == s[j]);
            }
        }
        if digit_run(s) < s.len() {
            assert(s.skip(1)[digit_run(s) - 1] == s[digit_run(s) as int]);
        }
    }
}

pub proof fn lemma_nondigit_run_props(s: Seq<char>)
    ensures
        nondigit_run(s) <= s.len(),
        forall|j: int| 0 <= j < nondigit_run(s) ==> !is_digit(s[j]),
        nondigit_run(s) < s.len() ==> is_digit(s[nondigit_run(s) as int]),
    decreases s.len(),
{
    if s.len() > 0 && !is_digit(s[0]) {
        lemma_nondigit_run_props(s.skip(1));
        assert forall|j: int| 0 <= j < nondigit_run(s) implies !is_digit(s[j]) by {
            if j > 0 {
                assert(s.skip(1)[j - 1] == s[j]);
            }
        }
        if nondigit_run(s) < s.len() {
            assert(s.skip(1)[nondigit_run(s) - 1] == s[nondigit_run(s) as int]);
        }
    }
}

/// Derived patterns are well-formed.
pub proof fn lemma_shape_wf(s: Seq<char>)
    ensures
        wf_shape(shape_of(s)),
        s.len() > 0 ==> shape_of(s).len() > 0 && ((shape_of(s)[0] is Num) == is_digit(s[0])),
    decreases s.len(),
{
    if s.len() == 0 {
    } else if is_digit(s[0]) {
        let k = digit_run(s) as int;
        lemma_digit_run_props(s);
        assert(k >= 1);
        let tail = s.skip(k);
        lemma_shape_wf(tail);
        let segs = shape_of(s);
        assert(segs == seq![SegView::Num] + shape_of(tail));
        if tail.len() > 0 {
            assert(!is_digit(tail[0]));
            assert(shape_of(tail)[0] is Lit);
        }
        assert forall|i: int| 0 <= i < segs.len() implies seg_wf(#[trigger] segs[i]) by {
            if i > 0 {
                assert(segs[i] == shape_of(tail)[i - 1]);
            }
        }
        assert forall|i: int| 0 <= i && i + 1 < segs.len() implies ((#[trigger] segs[i]) is Num
            != segs[i + 1] is Num) by {
            if i > 0 {
                assert(segs[i] == shape_of(tail)[i - 1]);
                assert(segs[i + 1] == shape_of(tail)[i]);
            } else {
                assert(segs[1] == shape_of(tail)[0]);
            }
        }
    } else {
        let k = nondigit_run(s) as int;
        lemma_nondigit_run_props(s);
        assert(k >= 1);
        let tail = s.skip(k);
        lemma_shape_wf(tail);
        let segs = shape_of(s);
        let l = s.take(k);
        assert(segs == seq![SegView::Lit(l)] + shape_of(tail));
        assert(seg_wf(SegView::Lit(l)));
        if tail.len() > 0 {
            assert(is_digit(tail[0]));
            assert(shape_of(tail)[0] is Num);
        }
        assert forall|i: int| 0 <= i < segs.len() implies seg_wf(#[trigger] segs[i]) by {
            if i > 0 {
                assert(segs[i] == shape_of(tail)[i - 1]);
            }
        }
        assert forall|i: int| 0 <= i && i + 1 < segs.len() implies ((#[trigger] segs[i]) is Num
            != segs[i + 1] is Num) by {
            if i > 0 {
                assert(segs[i] == shape_of(tail)[i - 1]);
                assert(segs[i + 1] == shape_of(tail)[i]);
            } else {
                assert(segs[1] == shape_of(tail)[0]);
            }
        }
    }
}

/// How many capture groups a pattern has.
pub open spec fn num_count(segs: Seq<SegView>) -> nat
    decreases segs.len(),
{
    if segs.len() == 0 {
        0
    } else {
        (if segs[0] is Num {
            1 as nat
        } else {
            0 as nat
        }) + num_count(segs.skip(1))
    }
}

/// The string obtained by writing `caps` into the groups of `segs`, in order,
/// and keeping the literals.
pub open spec fn subst(segs: Seq<SegView>, caps: Seq<Seq<char>>) -> Seq<char>
    decreases segs.len(),
{
    if segs.len() == 0 {
        Seq::<char>::empty()
    } else {
        match segs[0] {
            SegView::Lit(l) => l + subst(segs.skip(1), caps),
            SegView::Num => if caps.len() > 0 {
                caps[0] + subst(segs.skip(1), caps.skip(1))
            } else {
                subst(segs.skip(1), caps)
            },
        }
    }
}

/// A list of nonempty digit runs, one per group.
pub open spec fn caps_wf(caps: Seq<Seq<char>>) -> bool {
    forall|i: int|
        0 <= i < caps.len() ==> (#[trigger] caps[i]).len() > 0 && (forall|j: int|
            0 <= j < caps[i].len() ==> is_digit(caps[i][j]))
}

/// Captured groups of a successful match are nonempty digit runs, one per
/// group of the pattern.
pub proof fn lemma_match_caps_wf(segs: Seq<SegView>, s: Seq<char>)
    requires
        munch(segs, s) is Some,
    ensures
        caps_wf(munch(segs, s)->Some_0.1),
        munch(segs, s)->Some_0.1.len() == num_count(segs),
    decreases segs.len(),
{
    if segs.len() == 0 {
    } else {
        match segs[0] {
            SegView::Lit(l) => {
                lemma_match_caps_wf(segs.skip(1), s.skip(l.len() as int));
            },
            SegView::Num => {
                let k = digit_run(s) as int;
                lemma_digit_run_props(s);
                lemma_match_caps_wf(segs.skip(1), s.skip(k));
                let caps = munch(segs, s)->Some_0.1;
                let rest = munch(segs.skip(1), s.skip(k))->Some_0.1;
                assert(caps == seq![s.take(k)] + rest);
                assert(caps[0] == s.take(k));
                assert forall|j: int| 0 <= j < caps[0].len() implies is_digit(caps[0][j]) by {
                    assert(caps[0][j] == s[j]);
                }
                assert forall|i: int|
                    0 <= i < caps.len() implies (#[trigger] caps[i]).len() > 0 && (forall|j: int|
                    0 <= j < caps[i].len() ==> is_digit(caps[i][j])) by {
                    if i > 0 {
                        assert(caps[i] == rest[i - 1]);
                    }
                }
            },
        }
    }
}

/// Pattern synthesis is idempotent on structure: writing any fresh digit runs
/// into the groups of a well-formed pattern and re-deriving a pattern from
/// the resulting string gives back the very same segments.
pub proof fn lemma_subst_shape(segs: Seq<SegView>, caps: Seq<Seq<char>>)
    requires
        wf_shape(segs),
        caps_wf(caps),
        caps.len() == num_count(segs),
    ensures
        shape_of(subst(segs, caps)) == segs,
    decreases segs.len(),
{
    if segs.len() == 0 {
    } else {
        let rest = segs.skip(1);
        assert forall|i: int| 0 <= i < rest.len() implies seg_wf(#[trigger] rest[i]) by {
            assert(rest[i] == segs[i + 1]);
        }
        assert forall|i: int| 0 <= i && i + 1 < rest.len() implies ((#[trigger] rest[i]) is Num
            != rest[i + 1] is Num) by {
            assert(rest[i] == segs[i + 1]);
            assert(rest[i + 1] == segs[i + 2]);
        }
        match segs[0] {
            SegView::Lit(l) => {
                assert(seg_wf(segs[0]));
                let tail = subst(rest, caps);
                let u = subst(segs, caps);
                assert(u == l + tail);
                assert(num_count(rest) == num_count(segs));
                lemma_subst_shape(rest, caps);
                // the literal is followed by a digit or the end, so the
                // digit-free run of `u` is exactly the literal
                if rest.len() > 0 {
                    assert(rest[0] == segs[1]);
                    assert(segs[1] is Num);
                    assert(num_count(rest) > 0);
                    assert(caps.len() > 0);
                    assert(tail == caps[0] + subst(rest.skip(1), caps.skip(1)));
                    assert(caps[0].len() > 0);
                    assert(tail[0] == caps[0][0]);
                    assert(is_digit(tail[0]));
                    assert(u[l.len() as int] == tail[0]);
                }
                assert forall|j: int| 0 <= j < l.len() implies !is_digit(u[j]) by {
                    assert(u[j] == l[j]);
                }
                lemma_nondigit_run_is(u, l.len() as int);
                assert(!is_digit(u[0]));
                assert(u.take(l.len() as int) =~= l);
                assert(u.skip(l.len() as int) =~= tail);
                assert(shape_of(u) == seq![SegView::Lit(l)] + shape_of(tail));
                assert(seq![SegView::Lit(l)] + rest =~= segs);
            },
            SegView::Num => {
                assert(num_count(segs) == 1 + num_count(rest));
                assert(caps.len() > 0);
                let c = caps[0];
                let caps2 = caps.skip(1);
                assert forall|i: int|
                    0 <= i < caps2.len() implies (#[trigger] caps2[i]).len() > 0 && (forall|j: int|
                    0 <= j < caps2[i].len() ==> is_digit(caps2[i][j])) by {
                    assert(caps2[i] == caps[i + 1]);
                }
                let tail = subst(rest, caps2);
                let u = subst(segs, caps);
                assert(u == c + tail);
                lemma_subst_shape(rest, caps2);
                if rest.len() > 0 {
                    assert(rest[0] == segs[1]);
                    assert(segs[1] is Lit);
                    assert(seg_wf(segs[1]));
                    match segs[1] {
                        SegView::Lit(l2) => {
                            assert(tail == l2 + subst(rest.skip(1), caps2));
                            assert(l2.len() > 0);
                            assert(tail[0] == l2[0]);
                            assert(!is_digit(l2[0]));
                        },
                        SegView::Num => {
                            assert(false);
                        },
                    }
                    assert(!is_digit(tail[0]));
                    assert(u[c.len() as int] == tail[0]);
                }
                assert(c.len() > 0);
                assert forall|j: int| 0 <= j < c.len() implies is_digit(u[j]) by {
                    assert(u[j] == c[j]);
                }
                lemma_digit_run_is(u, c.len() as int);
                assert(is_digit(u[0]));
                assert(u.take(c.len() as int) =~= c);
                assert(u.skip(c.len() as int) =~= tail);
                assert(shape_of(u) == seq![SegView::Num] + shape_of(tail));
                assert(seq![SegView::Num] + rest =~= segs);
            },
        }
    }
}

/// A whole-string match survives appending text that does not begin with a
/// digit: the segments still consume exactly the original string and capture
/// the same groups.
pub proof fn lemma_munch_extend(segs: Seq<SegView>, t: Seq<char>, rest: Seq<char>)
    requires
        pat_matches(segs, t),
        rest.len() == 0 || !is_digit(rest[0]),
    ensures
        munch(segs, t + rest) == Some((t.len(), pat_caps(segs, t))),
    decreases segs.len(),
{
    if segs.len() == 0 {
        assert(t.len() == 0);
        assert(t + rest =~= rest);
        if rest.len() == 0 {
            assert(rest =~= Seq::<char>::empty());
        }
        assert(munch(segs, t + rest) == Some(((0 as nat), Seq::<Seq<char>>::empty())));
        assert(pat_caps(segs, t) =~= Seq::<Seq<char>>::empty());
    } else {
        let u = t + rest;
        match segs[0] {
            SegView::Lit(l) => {
                assert(l.len() <= t.len() && t.take(l.len() as int) == l);
                assert(u.take(l.len() as int) =~= t.take(l.len() as int));
                let t2 = t.skip(l.len() as int);
                assert(u.skip(l.len() as int) =~= t2 + rest);
                let inner = munch(segs.skip(1), t2);
                assert(inner is Some && inner->Some_0.0 == t2.len());
                assert(pat_matches(segs.skip(1), t2));
                lemma_munch_extend(segs.skip(1), t2, rest);
                assert(munch(segs, u) == Some(
                    ((l.len() + t2.len()) as nat, pat_caps(segs.skip(1), t2)),
                ));
                assert(l.len() + t2.len() == t.len());
            },
            SegView::Num => {
                let k = digit_run(t) as int;
                assert(k > 0);
                lemma_digit_run_props(t);
                assert forall|j: int| 0 <= j < k implies is_digit(u[j]) by {
                    assert(u[j] == t[j]);
                }
                if k < t.len() {
                    assert(u[k] == t[k]);
                    assert(!is_digit(u[k]));
                } else {
                    if rest.len() > 0 {
                        assert(u[k] == rest[0]);
                        assert(!is_digit(u[k]));
                    }
                }
                lemma_digit_run_is(u, k);
                assert(digit_run(u) == k);
                assert(u.take(k) =~= t.take(k));
                let t2 = t.skip(k);
                assert(u.skip(k) =~= t2 + rest);
                let inner = munch(segs.skip(1), t2);
                assert(inner is Some && inner->Some_0.0 == t2.len());
                assert(pat_matches(segs.skip(1), t2));
                lemma_munch_extend(segs.skip(1), t2, rest);
                assert(munch(segs, u) == Some(
                    ((k + t2.len()) as nat, seq![t.take(k)] + pat_caps(segs.skip(1), t2)),
                ));
                assert(k + t2.len() == t.len());
            },
        }
    }
}

/// Pattern synthesis is idempotent on structure: writing fresh digit runs
/// into the groups of a derived pattern and deriving a pattern from the
/// resulting string gives the very same segments back.
pub proof fn lemma_tag_pattern_idempotent(t: Seq<char>, caps: Seq<Seq<char>>)
    requires
        caps_wf(caps),
        caps.len() == num_count(shape_of(t)),
    ensures
        shape_of(subst(shape_of(t), caps)) == shape_of(t),
{
    lemma_shape_wf(t);
    lemma_subst_shape(shape_of(t), caps);
}

/// First index at or after `from` where the digit run starting at `from` ends.
pub exec fn digit_run_end(s: &[char], from: usize) -> (r: usize)
    requires
        from <= s@.len(),
    ensures
        from <= r <= s@.len(),
        r - from == digit_run(s@.skip(from as int)),
        forall|i: int| from <= i < r ==> is_digit(s@[i]),
        r < s@.len() ==> !is_digit(s@[r as int]),
{
    let n: usize = s.len();
    let mut j: usize = from;
    while j < n && crate::chars::is_digit_char(s[j])
        invariant
            from <= j <= n,
            n == s@.len(),
            forall|i: int| from <= i < j ==> is_digit(s@[i]),
        decreases n - j,
    {
        j = j + 1;
    }
    proof {
        assert forall|i: int| 0 <= i < j - from implies is_digit(s@.skip(from as int)[i]) by {
            assert(s@.skip(from as int)[i] == s@[i + from]);
        }
        if j < n {
            assert(s@.skip(from as int)[j - from] == s@[j as int]);
        }
        lemma_digit_run_is(s@.skip(from as int), j - from);
    }
    j
}

pub exec fn nondigit_run_end(s: &[char], from: usize) -> (r: usize)
    requires
        from <= s@.len(),
    ensures
        from <= r <= s@.len(),
        r - from == nondigit_run(s@.skip(from as int)),
        forall|i: int| from <= i < r ==> !is_digit(s@[i]),
        r < s@.len() ==> is_digit(s@[r as int]),
{
    let n: usize = s.len();
    let mut j: usize = from;
    while j < n && !crate::chars::is_digit_char(s[j])
        invariant
            from <= j <= n,
            n == s@.len(),
            forall|i: int| from <= i < j ==> !is_digit(s@[i]),
        decreases n - j,
    {
        j = j + 1;
    }
    proof {
        assert forall|i: int| 0 <= i < j - from implies !is_digit(s@.skip(from as int)[i]) by {
            assert(s@.skip(from as int)[i] == s@[i + from]);
        }
        if j < n {
            assert(s@.skip(from as int)[j - from] == s@[j as int]);
        }
        lemma_nondigit_run_is(s@.skip(from as int), j - from);
    }
    j
}

/// Derives the segments of the pattern for the literal `s`.
pub exec fn derive_segs(s: &[char]) -> (r: Vec<Seg>)
    ensures
        segs_view(r@) == shape_of(s@),
{
    let n: usize = s.len();
    let mut acc: Vec<Seg> = Vec::new();
    let mut i: usize = 0;
    proof {
        assert(s@.skip(0) =~= s@);
        assert(segs_view(acc@) =~= Seq::<SegView>::empty());
        assert(segs_view(acc@) + shape_of(s@) =~= shape_of(s@));
    }
    while i < n
        invariant
            i <= n,
            n == s@.len(),
            shape_of(s@) == segs_view(acc@) + shape_of(s@.skip(i as int)),
        decreases n - i,
    {
        let ghost pre = acc@;
        let ghost tail = s@.skip(i as int);
        if crate::chars::is_digit_char(s[i]) {
            let k = digit_run_end(s, i);
            acc.push(Seg::Num);
            proof {
                assert(tail[0] == s@[i as int]);
                assert(shape_of(tail) == seq![SegView::Num] + shape_of(tail.skip(k - i)));
                assert(tail.skip(k - i) =~= s@.skip(k as int));
                assert(segs_view(acc@) =~= segs_view(pre) + seq![SegView::Num]);
                assert(segs_view(acc@) + shape_of(s@.skip(k as int)) =~= (segs_view(pre)
                    + seq![SegView::Num]) + shape_of(tail.skip(k - i)));
                assert((segs_view(pre) + seq![SegView::Num]) + shape_of(tail.skip(k - i))
                    =~= segs_view(pre) + (seq![SegView::Num] + shape_of(tail.skip(k - i))));
                assert(k > i);
            }
            i = k;
        } else {
            let k = nondigit_run_end(s, i);
            let lit = vstd::slice::slice_to_vec(vstd::slice::slice_subrange(s, i, k));
            acc.push(Seg::Lit(lit));
            proof {
                assert(tail[0] == s@[i as int]);
                assert(shape_of(tail) == seq![SegView::Lit(tail.take(k - i))] + shape_of(
                    tail.skip(k - i),
                ));
                assert(s@.subrange(i as int, k as int) =~= tail.take(k - i));
                assert(tail.skip(k - i) =~= s@.skip(k as int));
                assert(segs_view(acc@) =~= segs_view(pre) + seq![SegView::Lit(tail.take(k - i))]);
                assert(segs_view(acc@) + shape_of(s@.skip(k as int)) =~= (segs_view(pre)
                    + seq![SegView::Lit(tail.take(k - i))]) + shape_of(tail.skip(k - i)));
                assert((segs_view(pre) + seq![SegView::Lit(tail.take(k - i))]) + shape_of(
                    tail.skip(k - i),
                ) =~= segs_view(pre) + (seq![SegView::Lit(tail.take(k - i))] + shape_of(
                    tail.skip(k - i),
                )));
                assert(k > i);
            }
            i = k;
        }
    }
    proof {
        assert(s@.skip(n as int) =~= Seq::<char>::empty());
        assert(shape_of(s@) =~= segs_view(acc@));
    }
    acc
}

/// Attaches a munch outcome for a suffix of the work to `base` characters
/// already consumed and `acc` groups already captured.
pub open spec fn combine(base: nat, acc: Seq<Seq<char>>, rest: Option<(nat, Seq<Seq<char>>)>) -> Option<
    (nat, Seq<Seq<char>>),
> {
    match rest {
        Some(r) => Some(((base + r.0) as nat, acc + r.1)),
        None => None,
    }
}

/// Does the literal `l` occur verbatim in `s` at position `at`?
pub(crate) exec fn lit_matches_at(s: &[char], at: usize, l: &Vec<char>) -> (r: bool)
    requires
        at <= s@.len(),
    ensures
        r == (at + l@.len() <= s@.len() && s@.skip(at as int).take(l@.len() as int) == l@),
{
    let m: usize = l.len();
    let n: usize = s.len();
    if n - at < m {
        return false;
    }
    let mut i: usize = 0;
    while i < m
        invariant
            i <= m,
            m == l@.len(),
            n == s@.len(),
            at + m <= n,
            forall|j: int| 0 <= j < i ==> s@[at + j] == l@[j],
        decreases m - i,
    {
        if s[at + i] != l[i] {
            proof {
                assert(s@.skip(at as int).take(l@.len() as int)[i as int] == s@[at + i]);
            }
            return false;
        }
        i = i + 1;
    }
    proof {
        assert(s@.skip(at as int).take(l@.len() as int) =~= l@);
    }
    true
}

/// Greedily matches the segments against `s` starting at `from`, the
/// executable counterpart of `munch`.
pub exec fn munch_prefix(segs: &Vec<Seg>, s: &[char], from: usize) -> (r: Option<
    (usize, Vec<Vec<char>>),
>)
    requires
        from <= s@.len(),
    ensures
        match r {
            Some(p) => {
                &&& munch(segs_view(segs@), s@.skip(from as int)) == Some(
                    ((p.0 as nat), caps_view(p.1@)),
                )
                &&& from + p.0 <= s@.len()
            },
            None => munch(segs_view(segs@), s@.skip(from as int)) is None,
        },
{
    let ghost sv = segs_view(segs@);
    let nsegs: usize = segs.len();
    let slen: usize = s.len();
    let mut si: usize = 0;
    let mut ci: usize = from;
    let mut acc: Vec<Vec<char>> = Vec::new();
    proof {
        assert(sv.skip(0) =~= sv);
        assert(caps_view(acc@) =~= Seq::<Seq<char>>::empty());
    }
    while si < nsegs
        invariant
            si <= nsegs,
            nsegs == segs@.len(),
            sv == segs_view(segs@),
            slen == s@.len(),
            from <= ci <= slen,
            munch(sv, s@.skip(from as int)) == combine(
                (ci - from) as nat,
                caps_view(acc@),
                munch(sv.skip(si as int), s@.skip(ci as int)),
            ),
        decreases nsegs - si,
    {
        let ghost rest_segs = sv.skip(si as int);
        let ghost rest_s = s@.skip(ci as int);
        proof {
            assert(rest_segs[0] == sv[si as int]);
            assert(sv[si as int] == seg_view(segs@[si as int]));
            assert(rest_segs.skip(1) =~= sv.skip(si + 1));
        }
        match &segs[si] {
            Seg::Lit(l) => {
                if lit_matches_at(s, ci, l) {
                    let next: usize = ci + l.len();
                    proof {
                        assert(rest_s.skip(l@.len() as int) =~= s@.skip(next as int));
                        match munch(sv.skip(si + 1), s@.skip(next as int)) {
                            Some(r) => {
                                assert(munch(rest_segs, rest_s) == Some(
                                    (((l@.len() + r.0) as nat), r.1),
                                ));
                            },
                            None => {
                                assert(munch(rest_segs, rest_s) is None);
                            },
                        }
                    }
                    ci = next;
                    si = si + 1;
                } else {
                    proof {
                        assert(munch(rest_segs, rest_s) is None);
                        assert(munch(sv, s@.skip(from as int)) is None);
                    }
                    return None;
                }
            },
            Seg::Num => {
                let k = digit_run_end(s, ci);
                if k == ci {
                    proof {
                        assert(digit_run(rest_s) == 0);
                        assert(munch(rest_segs, rest_s) is None);
                        assert(munch(sv, s@.skip(from as int)) is None);
                    }
                    return None;
                }
                let cap = vstd::slice::slice_to_vec(vstd::slice::slice_subrange(s, ci, k));
                let ghost pre = acc@;
                acc.push(cap);
                proof {
                    assert(rest_s.skip(k - ci) =~= s@.skip(k as int));
                    assert(rest_s.take(k - ci) =~= s@.subrange(ci as int, k as int));
                    assert(caps_view(acc@) =~= caps_view(pre) + seq![
                        s@.subrange(ci as int, k as int),
                    ]);
                    match munch(sv.skip(si + 1), s@.skip(k as int)) {
                        Some(r) => {
                            assert(munch(rest_segs, rest_s) == Some(
                                ((((k - ci) as nat) + r.0) as nat,
                                seq![rest_s.take(k - ci)] + r.1),
                            ));
                            assert(caps_view(pre) + (seq![rest_s.take(k - ci)] + r.1)
                                =~= caps_view(acc@) + r.1);
                        },
                        None => {
                            assert(munch(rest_segs, rest_s) is None);
                        },
                    }
                }
                ci = k;
                si = si + 1;
            },
        }
    }
    proof {
        assert(sv.skip(nsegs as int) =~= Seq::<SegView>::empty());
        assert(munch(sv.skip(nsegs as int), s@.skip(ci as int)) == Some(
            ((0 as nat), Seq::<Seq<char>>::empty()),
        ));
        assert(caps_view(acc@) + Seq::<Seq<char>>::empty() =~= caps_view(acc@));
    }
    Some((ci - from, acc))
}

/// Whole-string matching with captures: `Some` exactly when `s` matches, and
/// then the captured digit runs in order.
pub exec fn match_captures(segs: &Vec<Seg>, s: &[char]) -> (r: Option<Vec<Vec<char>>>)
    ensures
        r is Some <==> pat_matches(segs_view(segs@), s@),
        r is Some ==> caps_view(r->Some_0@) == pat_caps(segs_view(segs@), s@),
{
    proof {
        assert(s@.skip(0) =~= s@);
    }
    match munch_prefix(segs, s, 0) {
        Some((n, caps)) => {
            if n == s.len() {
                Some(caps)
            } else {
                None
            }
        },
        None => None,
    }
}

/// Characters escaped when a pattern is rendered as regex text. Escaping
/// everything with a special meaning (not only hyphen and dot) keeps a literal
/// like `lts+alpine` from silently matching other shapes.
pub open spec fn is_meta(c: char) -> bool {
    ||| c == '.'
    ||| c == '^'
    ||| c == '$'
    ||| c == '*'
    ||| c == '+'
    ||| c == '?'
    ||| c == '('
    ||| c == ')'
    ||| c == '['
    ||| c == ']'
    ||| c == '{'
    ||| c == '}'
    ||| c == '|'
    ||| c == '\\'
    ||| c == '-'
}

pub open spec fn esc_char(c: char) -> Seq<char> {
    if is_meta(c) {
        seq!['\\', c]
    } else {
        seq![c]
    }
}

pub open spec fn esc_lit(l: Seq<char>) -> Seq<char>
    decreases l.len(),
{
    if l.len() == 0 {
        Seq::<char>::empty()
    } else {
        esc_lit(l.drop_last()) + esc_char(l.last())
    }
}

/// The regex text of one capture group.
pub open spec fn num_group() -> Seq<char> {
    seq!['(', '[', '0', '-', '9', ']', '+', ')']
}

pub open spec fn render_seg(g: SegView) -> Seq<char> {
    match g {
        SegView::Lit(l) => esc_lit(l),
        SegView::Num => num_group(),
    }
}

/// The regex text of a whole pattern (unanchored; matching itself is always
/// anchored).
pub open spec fn render_segs(segs: Seq<SegView>) -> Seq<char>
    decreases segs.len(),
{
    if segs.len() == 0 {
        Seq::<char>::empty()
    } else {
        render_segs(segs.drop_last()) + render_seg(segs.last())
    }
}

exec fn is_meta_exec(c: char) -> (r: bool)
    ensures
        r == is_meta(c),
{
    c == '.' || c == '^' || c == '$' || c == '*' || c == '+' || c == '?' || c == '(' || c == ')'
        || c == '[' || c == ']' || c == '{' || c == '}' || c == '|' || c == '\\' || c == '-'
}

exec fn push_escaped(out: &mut Vec<char>, l: &Vec<char>)
    ensures
        final(out)@ == old(out)@ + esc_lit(l@),
{
    let m: usize = l.len();
    let mut i: usize = 0;
    proof {
        assert(out@ =~= old(out)@ + esc_lit(l@.take(0)));
    }
    while i < m
        invariant
            i <= m,
            m == l@.len(),
            out@ == old(out)@ + esc_lit(l@.take(i as int)),
        decreases m - i,
    {
        let c = l[i];
        if is_meta_exec(c) {
            out.push('\\');
        }
        out.push(c);
        proof {
            assert(l@.take(i + 1).drop_last() =~= l@.take(i as int));
            assert(l@.take(i + 1).last() == l@[i as int]);
            assert(out@ =~= old(out)@ + (esc_lit(l@.take(i as int)) + esc_char(l@[i as int])));
        }
        i = i + 1;
    }
    proof {
        assert(l@.take(m as int) =~= l@);
    }
}

/// Renders the regex text of the segments.
pub exec fn render_segs_exec(segs: &Vec<Seg>) -> (r: Vec<char>)
    ensures
        r@ == render_segs(segs_view(segs@)),
{
    let ghost sv = segs_view(segs@);
    let nsegs: usize = segs.len();
    let mut out: Vec<char> = Vec::new();
    let mut si: usize = 0;
    proof {
        assert(out@ =~= render_segs(sv.take(0)));
    }
    while si < nsegs
        invariant
            si <= nsegs,
            nsegs == segs@.len(),
            sv == segs_view(segs@),
            out@ == render_segs(sv.take(si as int)),
        decreases nsegs - si,
    {
        let ghost pre = out@;
        proof {
            assert(sv.take(si + 1).drop_last() =~= sv.take(si as int));
            assert(sv.take(si + 1).last() == sv[si as int]);
            assert(sv[si as int] == seg_view(segs@[si as int]));
        }
        match &segs[si] {
            Seg::Lit(l) => {
                push_escaped(&mut out, l);
            },
            Seg::Num => {
                out.push('(');
                out.push('[');
                out.push('0');
                out.push('-');
                out.push('9');
                out.push(']');
                out.push('+');
                out.push(')');
                proof {
                    assert(out@ =~= pre + num_group());
                }
            },
        }
        si = si + 1;
    }
    proof {
        assert(sv.take(nsegs as int) =~= sv);
    }
    out
}

impl Clone for Seg {
    fn clone(&self) -> (r: Seg)
        ensures
            seg_view(r) == seg_view(*self),
    {
        match self {
            Seg::Lit(l) => Seg::Lit(vstd::slice::slice_to_vec(l.as_slice())),
            Seg::Num => Seg::Num,
        }
    }
}

/// A compiled structural pattern: the segments that drive matching, plus the
/// rendered regex text shown to humans. The two always describe the same
/// matcher.
#[derive(Debug)]
pub struct Pattern {
    segs: Vec<Seg>,
    text: String,
}

impl Pattern {
    /// The segments this pattern matches by.
    pub closed spec fn segs_spec(&self) -> Seq<SegView> {
        segs_view(self.segs@)
    }

    /// The rendered regex text.
    pub closed spec fn text_spec(&self) -> Seq<char> {
        self.text@
    }

    /// The rendered text always agrees with the segments.
    pub closed spec fn wf(&self) -> bool {
        self.text@ == render_segs(segs_view(self.segs@))
    }

    pub exec fn as_str(&self) -> (r: &str)
        ensures
            r@ == self.text_spec(),
    {
        self.text.as_str()
    }

    /// Anchored match with captures over a candidate given as characters.
    pub exec fn captures_chars(&self, s: &[char]) -> (r: Option<Vec<Vec<char>>>)
        ensures
            r is Some <==> pat_matches(self.segs_spec(), s@),
            r is Some ==> caps_view(r->Some_0@) == pat_caps(self.segs_spec(), s@),
    {
        match_captures(&self.segs, s)
    }

    /// Anchored match of a whole candidate string.
    pub exec fn is_match(&self, s: &str) -> (r: bool)
        ensures
            r == pat_matches(self.segs_spec(), s@),
    {
        let cs = crate::chars::str_to_chars(s);
        match self.captures_chars(cs.as_slice()) {
            Some(_) => true,
            None => false,
        }
    }

    /// Greedy segment match inside a larger text, for declaration lines.
    pub exec fn munch_at(&self, s: &[char], from: usize) -> (r: Option<(usize, Vec<Vec<char>>)>)
        requires
            from <= s@.len(),
        ensures
            match r {
                Some(p) => {
                    &&& munch(self.segs_spec(), s@.skip(from as int)) == Some(
                        ((p.0 as nat), caps_view(p.1@)),
                    )
                    &&& from + p.0 <= s@.len()
                },
                None => munch(self.segs_spec(), s@.skip(from as int)) is None,
            },
    {
        munch_prefix(&self.segs, s, from)
    }
}

impl Clone for Pattern {
    fn clone(&self) -> (r: Pattern)
        ensures
            r.segs_spec() == self.segs_spec(),
            r.text_spec() == self.text_spec(),
            r.wf() == self.wf(),
    {
        let mut segs: Vec<Seg> = Vec::new();
        let n: usize = self.segs.len();
        let mut i: usize = 0;
        while i < n
            invariant
                i <= n,
                n == self.segs@.len(),
                segs_view(segs@) == segs_view(self.segs@).take(i as int),
            decreases n - i,
        {
            let ghost pre = segs@;
            let g = self.segs[i].clone();
            proof {
                assert(seg_view(g) == seg_view(self.segs@[i as int]));
            }
            segs.push(g);
            proof {
                assert(segs_view(pre).len() == pre.len());
                assert(pre.len() == i);
                assert(segs@ == pre.push(g));
                assert forall|j: int| 0 <= j < i + 1 implies segs_view(segs@)[j] == segs_view(
                    self.segs@,
                ).take(i + 1)[j] by {
                    assert(segs_view(segs@)[j] == seg_view(segs@[j]));
                    assert(segs_view(self.segs@)[j] == seg_view(self.segs@[j]));
                    if j < i {
                        assert(segs@[j] == pre[j]);
                        assert(segs_view(pre)[j] == seg_view(pre[j]));
                        assert(segs_view(pre)[j] == segs_view(self.segs@).take(i as int)[j]);
                    } else {
                        assert(segs@[j] == g);
                    }
                }
                assert(segs_view(segs@) =~= segs_view(self.segs@).take(i + 1));
            }
            i = i + 1;
        }
        proof {
            assert(segs_view(self.segs@).take(n as int) =~= segs_view(self.segs@));
        }
        Pattern { segs, text: self.text.clone() }
    }
}

/// Synthesizes the pattern for an observed tag literal: digit runs become
/// groups, everything else is matched (and rendered escaped) literally.
/// Synthesis is total; no input fails.
pub exec fn tag_to_re(tag_str: &str) -> (r: Pattern)
    ensures
        r.segs_spec() == shape_of(tag_str@),
        r.text_spec() == render_segs(shape_of(tag_str@)),
        r.wf(),
{
    let cs = crate::chars::str_to_chars(tag_str);
    let segs = derive_segs(cs.as_slice());
    let textv = render_segs_exec(&segs);
    let text = crate::chars::chars_to_string(&textv);
    Pattern { segs, text }
}

} // verus!
