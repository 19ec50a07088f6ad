//! The distance scorer: a similarity distance between a target token and
//! one candidate line, together with a flag that says whether every
//! target character was located, in order, somewhere in the line.

use vstd::prelude::*;

verus! {

/// Index of the first occurrence of `c` in `line`, or `-1` when `c` does
/// not occur in `line`.
pub open spec fn find_char(line: Seq<char>, c: char) -> int
    decreases line.len(),
{
    if line.len() == 0 {
        -1
    } else if line[0] == c {
        0
    } else if find_char(line.skip(1), c) == -1 {
        -1
    } else {
        1 + find_char(line.skip(1), c)
    }
}

/// `find_char` returns `-1` exactly when the character is absent; otherwise
/// it returns the index of the first occurrence.
pub proof fn lemma_find_char(line: Seq<char>, c: char)
    ensures
        find_char(line, c) == -1 ==> forall|k: int| 0 <= k < line.len() ==> line[k] != c,
        find_char(line, c) != -1 ==> 0 <= find_char(line, c) < line.len(),
        find_char(line, c) != -1 ==> line[find_char(line, c)] == c,
        find_char(line, c) != -1 ==> forall|k: int|
            0 <= k < find_char(line, c) ==> line[k] != c,
    decreases line.len(),
{
    if line.len() > 0 && line[0] != c {
        lemma_find_char(line.skip(1), c);
        assert forall|k: int| 1 <= k < line.len() implies line[k] == line.skip(1)[k - 1] by {}
    }
}

/// The penalty accumulated by the walk over `target` and `line`.
///
/// The two are walked in step: a matching pair of characters costs
/// nothing; on a mismatch the line is scanned forward for the current
/// target character, each skipped line character costing one point.  When
/// a target character is nowhere in the rest of the line, every remaining
/// character of both strings costs one point.  Line characters left over
/// after the last target character cost one point each.
pub open spec fn walk_distance(target: Seq<char>, line: Seq<char>) -> int
    decreases target.len(),
{
    if target.len() == 0 {
        line.len() as int
    } else {
        let j = find_char(line, target[0]);
        if j == -1 {
            line.len() + target.len() as int
        } else {
            j + walk_distance(target.skip(1), line.skip(j + 1))
        }
    }
}

/// The similarity distance between `target` and `line`: the penalty of
/// the walk, except that a non-empty target scored against an empty line
/// costs one point per target character plus one.
pub open spec fn distance_of(target: Seq<char>, line: Seq<char>) -> int {
    if target.len() > 0 && line.len() == 0 {
        target.len() + 1 as int
    } else {
        walk_distance(target, line)
    }
}

/// Whether every character of `target` was located, in order, somewhere in
/// `line`: `target` is a subsequence of `line` under the scorer's greedy
/// first-occurrence walk.
pub open spec fn complete_of(target: Seq<char>, line: Seq<char>) -> bool
    decreases target.len(),
{
    if target.len() == 0 {
        true
    } else {
        let j = find_char(line, target[0]);
        j != -1 && complete_of(target.skip(1), line.skip(j + 1))
    }
}

/// Whether `target` occurs within `line` in order, though not necessarily
/// contiguously.
pub open spec fn is_subsequence_of(target: Seq<char>, line: Seq<char>) -> bool
    decreases line.len(),
{
    if target.len() == 0 {
        true
    } else if line.len() == 0 {
        false
    } else if target[0] == line[0] && is_subsequence_of(target.skip(1), line.skip(1)) {
        true
    } else {
        is_subsequence_of(target, line.skip(1))
    }
}

/// A walk that completes on a suffix of the line also completes on the
/// whole line: matching a character earlier never hurts the greedy walk.
proof fn lemma_complete_from_suffix(target: Seq<char>, line: Seq<char>, k: int)
    requires
        0 <= k <= line.len(),
        complete_of(target, line.skip(k)),
    ensures
        complete_of(target, line),
    decreases target.len(),
{
    if target.len() > 0 {
        let lk = line.skip(k);
        let j2 = find_char(lk, target[0]);
        lemma_find_char(lk, target[0]);
        assert(line[k + j2] == target[0]);
        lemma_find_char(line, target[0]);
        let j = find_char(line, target[0]);
        assert(j != -1) by {
            if j == -1 {
                assert(line[k + j2] != target[0]);
            }
        }
        assert(j <= k + j2) by {
            if j > k + j2 {
                assert(line[k + j2] != target[0]);
            }
        }
        assert(lk.skip(j2 + 1) =~= line.skip(k + j2 + 1));
        assert(line.skip(j + 1).skip(k + j2 - j) =~= line.skip(k + j2 + 1));
        lemma_complete_from_suffix(target.skip(1), line.skip(j + 1), k + j2 - j);
    }
}

/// A subsequence of a suffix of the line is a subsequence of the line.
proof fn lemma_subsequence_from_suffix(target: Seq<char>, line: Seq<char>, k: int)
    requires
        0 <= k <= line.len(),
        is_subsequence_of(target, line.skip(k)),
    ensures
        is_subsequence_of(target, line),
    decreases k,
{
    if k == 0 {
        assert(line.skip(0) =~= line);
    } else if target.len() > 0 {
        assert(line.skip(1).skip(k - 1) =~= line.skip(k));
        lemma_subsequence_from_suffix(target, line.skip(1), k - 1);
    }
}

/// The greedy walk locates every target character exactly when the target
/// occurs within the line in order: the complete flag reports subsequence
/// containment.
pub proof fn lemma_complete_iff_subsequence(target: Seq<char>, line: Seq<char>)
    ensures
        complete_of(target, line) <==> is_subsequence_of(target, line),
    decreases target.len() + line.len(),
{
    if target.len() > 0 {
        lemma_find_char(line, target[0]);
        let j = find_char(line, target[0]);
        if complete_of(target, line) {
            lemma_complete_iff_subsequence(target.skip(1), line.skip(j + 1));
            assert(line.skip(j)[0] == target[0]);
            assert(line.skip(j).skip(1) =~= line.skip(j + 1));
            assert(is_subsequence_of(target, line.skip(j)));
            lemma_subsequence_from_suffix(target, line, j);
        }
        if is_subsequence_of(target, line) {
            if target[0] == line[0] && is_subsequence_of(target.skip(1), line.skip(1)) {
                lemma_complete_iff_subsequence(target.skip(1), line.skip(1));
                assert(find_char(line, target[0]) == 0);
            } else {
                lemma_complete_iff_subsequence(target, line.skip(1));
                lemma_complete_from_suffix(target, line, 1);
            }
        }
    }
}

/// The walk's penalty is never negative and never exceeds the two lengths
/// added.
proof fn lemma_walk_bounds(target: Seq<char>, line: Seq<char>)
    ensures
        0 <= walk_distance(target, line) <= target.len() + line.len(),
    decreases target.len(),
{
    if target.len() > 0 {
        let j = find_char(line, target[0]);
        if j != -1 {
            lemma_find_char(line, target[0]);
            lemma_walk_bounds(target.skip(1), line.skip(j + 1));
        }
    }
}

/// The distance is never negative and never exceeds the two lengths added
/// plus one.
pub proof fn lemma_distance_bounds(target: Seq<char>, line: Seq<char>)
    ensures
        0 <= distance_of(target, line) <= target.len() + line.len() + 1,
{
    lemma_walk_bounds(target, line);
}

/// The characters of `s`, collected into a vector.
fn chars_vec(s: &str) -> (r: Vec<char>)
    ensures
        r@ == s@,
{
    let n: usize = s.unicode_len();
    let mut r: Vec<char> = Vec::new();
    let mut i: usize = 0;
    while i < n
        invariant
            i <= n,
            n == s@.len(),
            r@ == s@.subrange(0, i as int),
        decreases n - i,
    {
        r.push(s.get_char(i));
        assert(r@ =~= s@.subrange(0, i + 1));
        i = i + 1;
    }
    assert(r@ =~= s@);
    r
}

/// Scores one candidate line against the target.
///
/// The result pairs the accumulated penalty distance (lower is more
/// similar, zero is an exact match) with the complete-match flag: `true`
/// exactly when every target character was located, in order, somewhere
/// in the line.
pub fn get_distance(target: &str, value: &str) -> (r: (usize, bool))
    requires
        target@.len() + value@.len() < usize::MAX,
    ensures
        r.0 == distance_of(target@, value@),
        r.1 == complete_of(target@, value@),
        r.1 == is_subsequence_of(target@, value@),
{
    let t = chars_vec(target);
    let v = chars_vec(value);
    let tlen = t.len();
    let vlen = v.len();
    proof {
        lemma_complete_iff_subsequence(target@, value@);
        lemma_walk_bounds(target@, value@);
        assert(target@.skip(0) =~= target@);
        assert(value@.skip(0) =~= value@);
    }
    if vlen == 0 && tlen > 0 {
        // A non-empty target against an empty line: one point per target
        // character plus one, and the match is incomplete.
        return (tlen + 1, false);
    }

    let mut ti: usize = 0;
    let mut vi: usize = 0;
    let mut d: usize = 0;

    while ti < tlen
        invariant
            ti <= tlen,
            vi <= vlen,
            t@ == target@,
            v@ == value@,
            tlen == target@.len(),
            vlen == value@.len(),
            tlen + vlen <= usize::MAX,
            walk_distance(target@, value@) <= tlen + vlen,
            distance_of(target@, value@) == walk_distance(target@, value@),
            d + walk_distance(target@.skip(ti as int), value@.skip(vi as int)) == walk_distance(
                target@,
                value@,
            ),
            complete_of(target@, value@) == complete_of(
                target@.skip(ti as int),
                value@.skip(vi as int),
            ),
        decreases tlen - ti,
    {
        let ghost tsuf = target@.skip(ti as int);
        let ghost vsuf = value@.skip(vi as int);
        let ghost d0 = d as int;
        proof {
            lemma_walk_bounds(tsuf, vsuf);
        }
        let tc = t[ti];
        assert(tsuf[0] == tc);

        let mut j: usize = vi;
        while j < vlen && v[j] != tc
            invariant
                vi <= j <= vlen,
                v@ == value@,
                vlen == value@.len(),
                tlen + vlen <= usize::MAX,
                forall|k: int| vi <= k < j ==> value@[k] != tc,
                d == d0 + j - vi,
                d0 + walk_distance(tsuf, vsuf) == walk_distance(target@, value@),
                walk_distance(target@, value@) <= tlen + vlen,
                distance_of(target@, value@) == walk_distance(target@, value@),
                tsuf.len() > 0 && tsuf[0] == tc,
                tsuf == target@.skip(ti as int),
                vsuf == value@.skip(vi as int),
                ti < tlen,
            decreases vlen - j,
        {
            proof {
                lemma_scan_bound(tsuf, vsuf, j + 1 - vi);
            }
            d = d + 1;
            j = j + 1;
        }

        proof {
            lemma_find_char(vsuf, tc);
            assert forall|k: int| 0 <= k < j - vi implies vsuf[k] != tc by {
                assert(vsuf[k] == value@[k + vi]);
            }
        }
        if j == vlen {
            // The current target character is nowhere in the rest of the
            // line: every remaining character of both strings costs one
            // point, and the match is incomplete.
            proof {
                assert(find_char(vsuf, tc) == -1) by {
                    if find_char(vsuf, tc) != -1 {
                        assert(vsuf[find_char(vsuf, tc)] == tc);
                    }
                }
                lemma_complete_iff_subsequence(target@, value@);
            }
            return (d + (tlen - ti), false);
        }
        // Found the target character at index j of the line: the walk
        // resumes just past it.
        assert(vsuf[j - vi] == tc);
        proof {
            assert(find_char(vsuf, tc) == j - vi) by {
                if find_char(vsuf, tc) == -1 {
                    assert(vsuf[j - vi] != tc);
                } else if find_char(vsuf, tc) < j - vi {
                    assert(vsuf[find_char(vsuf, tc)] != tc);
                } else if find_char(vsuf, tc) > j - vi {
                    assert(vsuf[j - vi] != tc);
                }
            }
            assert(tsuf.skip(1) =~= target@.skip(ti + 1));
            assert(vsuf.skip(j - vi + 1) =~= value@.skip(j + 1));
        }
        ti = ti + 1;
        vi = j + 1;
    }
    // Target exhausted: each leftover line character costs one point, and
    // the match is complete.
    assert(walk_distance(target@.skip(ti as int), value@.skip(vi as int)) == vlen - vi);
    (d + (vlen - vi), true)
}

/// A string scored against itself has distance zero and is a complete
/// match.
pub proof fn lemma_self_match(s: Seq<char>)
    ensures
        distance_of(s, s) == 0,
        complete_of(s, s),
    decreases s.len(),
{
    if s.len() > 0 {
        lemma_self_match(s.skip(1));
    }
}

/// A line that is the target plus one extra trailing character scores
/// distance one and is a complete match, whatever the extra character is.
pub proof fn lemma_extra_trailing(s: Seq<char>, c: char)
    ensures
        distance_of(s, s.push(c)) == 1,
        complete_of(s, s.push(c)),
    decreases s.len(),
{
    if s.len() == 0 {
        assert(s.push(c).len() == 1);
    } else {
        assert(s.push(c)[0] == s[0]);
        assert(find_char(s.push(c), s[0]) == 0);
        assert(s.push(c).skip(1) =~= s.skip(1).push(c));
        lemma_extra_trailing(s.skip(1), c);
    }
}

/// A target that is the line minus its last character scores distance one
/// and is a complete match: the mirror off-by-one of `lemma_extra_trailing`.
pub proof fn lemma_missing_last(s: Seq<char>)
    requires
        s.len() > 0,
    ensures
        distance_of(s.drop_last(), s) == 1,
        complete_of(s.drop_last(), s),
{
    assert(s =~= s.drop_last().push(s.last()));
    lemma_extra_trailing(s.drop_last(), s.last());
}

/// When the target and the line share no character at all, every
/// character of both costs one point, and a non-empty target is never
/// complete.  An empty line against a non-empty target is left out: it is
/// scored by its own rule, one point per target character plus one.
pub proof fn lemma_disjoint(target: Seq<char>, line: Seq<char>)
    requires
        forall|i: int, k: int|
            0 <= i < target.len() && 0 <= k < line.len() ==> target[i] != line[k],
        line.len() > 0 || target.len() == 0,
    ensures
        distance_of(target, line) == target.len() + line.len(),
        target.len() > 0 ==> !complete_of(target, line),
{
    if target.len() > 0 {
        lemma_find_char(line, target[0]);
        assert(find_char(line, target[0]) == -1) by {
            if find_char(line, target[0]) != -1 {
                assert(line[find_char(line, target[0])] == target[0]);
            }
        }
    }
}

/// When the first `k` characters of the line miss the target's first
/// character, the walk's penalty is at least `k`: the scan has already
/// charged one point for each of them.
proof fn lemma_scan_bound(target: Seq<char>, line: Seq<char>, k: int)
    requires
        target.len() > 0,
        0 <= k <= line.len(),
        forall|i: int| 0 <= i < k ==> line[i] != target[0],
    ensures
        walk_distance(target, line) >= k,
{
    lemma_find_char(line, target[0]);
    let j = find_char(line, target[0]);
    if j == -1 {
        assert(walk_distance(target, line) == line.len() + target.len() as int);
    } else {
        assert(line[j] == target[0]);
        assert(j >= k);
        lemma_walk_bounds(target.skip(1), line.skip(j + 1));
    }
}

} // verus!

