//! Resolution of import specifiers to canonical identities.
//!
//! A canonical identity is an absolute path whose `.` and `..` segments and
//! repeated separators have been removed by purely lexical normalization.
//! The specifier is taken exactly as written: no extension or `index` file
//! probing is attempted, and symbolic links are not followed; callers that
//! want link-free identities canonicalize the root before the walk starts.

use vstd::prelude::*;

verus! {

/// One step of splitting a path into segments: a separator closes the
/// current segment (empty segments are dropped), any other character
/// extends it.
pub open spec fn seg_step(acc: (Seq<Seq<char>>, Seq<char>), c: char) -> (Seq<Seq<char>>, Seq<char>) {
    if c == '/' {
        if acc.1.len() == 0 {
            acc
        } else {
            (acc.0.push(acc.1), Seq::empty())
        }
    } else {
        (acc.0, acc.1.push(c))
    }
}

/// The split state (closed segments, open segment) after reading the first
/// `i` characters of `s`.
pub open spec fn scan_segments(s: Seq<char>, i: int) -> (Seq<Seq<char>>, Seq<char>)
    decreases i,
{
    if i <= 0 {
        (Seq::empty(), Seq::empty())
    } else {
        seg_step(scan_segments(s, i - 1), s[i - 1])
    }
}

/// The nonempty, separator-free segments of a path, in order.
pub open spec fn segments_of(s: Seq<char>) -> Seq<Seq<char>> {
    let (segs, cur) = scan_segments(s, s.len() as int);
    if cur.len() == 0 {
        segs
    } else {
        segs.push(cur)
    }
}

/// One step of lexical normalization: `.` is dropped, `..` removes the
/// segment before it (or nothing at the root), any other segment is kept.
pub open spec fn norm_step(acc: Seq<Seq<char>>, seg: Seq<char>) -> Seq<Seq<char>> {
    if seg == seq!['.'] {
        acc
    } else if seg == seq!['.', '.'] {
        if acc.len() == 0 {
            acc
        } else {
            acc.drop_last()
        }
    } else {
        acc.push(seg)
    }
}

/// The segment stack after normalizing the first `i` segments of `segs`
/// on top of the starting stack `acc`.
pub open spec fn norm_from(acc: Seq<Seq<char>>, segs: Seq<Seq<char>>, i: int) -> Seq<Seq<char>>
    decreases i,
{
    if i <= 0 {
        acc
    } else {
        norm_step(norm_from(acc, segs, i - 1), segs[i - 1])
    }
}

/// Lexical normalization of a whole segment sequence.
pub open spec fn normalize_segments(segs: Seq<Seq<char>>) -> Seq<Seq<char>> {
    norm_from(Seq::empty(), segs, segs.len() as int)
}

/// The characters of an absolute path built from the first `i` segments:
/// each segment is preceded by one separator.
pub open spec fn join_from(segs: Seq<Seq<char>>, i: int) -> Seq<char>
    decreases i,
{
    if i <= 0 {
        Seq::empty()
    } else {
        join_from(segs, i - 1) + seq!['/'] + segs[i - 1]
    }
}

/// The absolute path holding exactly the given segments; with no segments
/// it is the root `/`.
pub open spec fn joined(segs: Seq<Seq<char>>) -> Seq<char> {
    if segs.len() == 0 {
        seq!['/']
    } else {
        join_from(segs, segs.len() as int)
    }
}

/// The canonical identity of a path: its segments, lexically normalized
/// and rejoined into an absolute path.
pub open spec fn canon_spec(p: Seq<char>) -> Seq<char> {
    joined(normalize_segments(segments_of(p)))
}

/// The normalized segments of the directory holding `base`: all of
/// `base`'s segments but the last.
pub open spec fn parent_segments(base: Seq<char>) -> Seq<Seq<char>> {
    let bs = normalize_segments(segments_of(base));
    if bs.len() == 0 {
        bs
    } else {
        bs.drop_last()
    }
}

/// Where an import specifier written in `base` points: an absolute
/// specifier is canonicalized on its own, any other specifier is resolved
/// against the directory holding `base`.
pub open spec fn resolve_spec(base: Seq<char>, specifier: Seq<char>) -> Seq<char> {
    if specifier.len() > 0 && specifier[0] == '/' {
        canon_spec(specifier)
    } else {
        let segs = segments_of(specifier);
        joined(norm_from(parent_segments(base), segs, segs.len() as int))
    }
}

/// Splits a path into its nonempty, separator-free segments.
pub fn split_segments(s: &str) -> (segs: Vec<String>)
    ensures
        segs@.map_values(|t: String| t@) == segments_of(s@),
{
    let n = s.unicode_len();
    let mut segs: Vec<String> = Vec::new();
    let mut start: usize = 0;
    let mut i: usize = 0;
    while i < n
        invariant
            n == s@.len(),
            start <= i <= n,
            segs@.map_values(|t: String| t@) == scan_segments(s@, i as int).0,
            s@.subrange(start as int, i as int) == scan_segments(s@, i as int).1,
        decreases n - i,
    {
        let c = s.get_char(i);
        if c == '/' {
            if start < i {
                let seg = String::from_str(s.substring_char(start, i));
                segs.push(seg);
                proof {
                    assert(segs@.map_values(|t: String| t@) =~= scan_segments(
                        s@,
                        i as int,
                    ).0.push(s@.subrange(start as int, i as int)));
                }
            }
            start = i + 1;
            proof {
                assert(s@.subrange(start as int, i + 1) =~= scan_segments(s@, i + 1).1);
            }
        } else {
            proof {
                assert(s@.subrange(start as int, i + 1) =~= s@.subrange(start as int, i as int).push(
                    s@[i as int],
                ));
            }
        }
        i = i + 1;
    }
    if start < n {
        let seg = String::from_str(s.substring_char(start, n));
        segs.push(seg);
        proof {
            assert(segs@.map_values(|t: String| t@) =~= segments_of(s@));
        }
    } else {
        proof {
            assert(segs@.map_values(|t: String| t@) =~= segments_of(s@));
        }
    }
    segs
}

/// Normalizes the segments `segs` on top of the starting stack `stack`.
pub fn normalize_from(stack: Vec<String>, segs: &Vec<String>) -> (out: Vec<String>)
    ensures
        out@.map_values(|t: String| t@) == norm_from(
            stack@.map_values(|t: String| t@),
            segs@.map_values(|t: String| t@),
            segs@.len() as int,
        ),
{
    proof {
        reveal_strlit(".");
        reveal_strlit("..");
    }
    let dot = String::from_str(".");
    let dotdot = String::from_str("..");
    let ghost acc0 = stack@.map_values(|t: String| t@);
    let ghost sv = segs@.map_values(|t: String| t@);
    let mut out = stack;
    let mut j: usize = 0;
    while j < segs.len()
        invariant
            j <= segs@.len(),
            sv == segs@.map_values(|t: String| t@),
            dot@ == seq!['.'],
            dotdot@ == seq!['.', '.'],
            out@.map_values(|t: String| t@) == norm_from(acc0, sv, j as int),
        decreases segs@.len() - j,
    {
        let seg = &segs[j];
        if *seg == dot {
            // dropped
        } else if *seg == dotdot {
            if out.len() > 0 {
                let _ = out.pop();
                proof {
                    assert(out@.map_values(|t: String| t@) =~= norm_from(acc0, sv, j as int).drop_last());
                }
            }
        } else {
            out.push(seg.clone());
            proof {
                assert(out@.map_values(|t: String| t@) =~= norm_from(acc0, sv, j as int).push(sv[j as int]));
            }
        }
        j = j + 1;
    }
    out
}

/// Joins segments into an absolute path, one separator before each segment;
/// no segments gives the root `/`.
pub fn join_segments(segs: &Vec<String>) -> (out: String)
    ensures
        out@ == joined(segs@.map_values(|t: String| t@)),
{
    proof {
        reveal_strlit("/");
    }
    let ghost sv = segs@.map_values(|t: String| t@);
    if segs.len() == 0 {
        return String::from_str("/");
    }
    let mut out = String::new();
    let mut j: usize = 0;
    while j < segs.len()
        invariant
            j <= segs@.len(),
            sv == segs@.map_values(|t: String| t@),
            out@ == join_from(sv, j as int),
        decreases segs@.len() - j,
    {
        proof {
            reveal_strlit("/");
        }
        out.append("/");
        out.append(segs[j].as_str());
        j = j + 1;
    }
    out
}

/// The canonical identity of a path: segments split, normalized, rejoined.
pub fn canonical(p: &str) -> (r: String)
    ensures
        r@ == canon_spec(p@),
{
    let segs = split_segments(p);
    let empty: Vec<String> = Vec::new();
    proof {
        assert(empty@.map_values(|t: String| t@) =~= Seq::<Seq<char>>::empty());
    }
    let norm = normalize_from(empty, &segs);
    join_segments(&norm)
}

/// Resolves an import specifier written in the file `base` to the canonical
/// identity it points at. The specifier is joined as written against
/// `base`'s directory — no extension or `index` probing — and an absolute
/// specifier stands on its own.
pub fn resolve(base: &str, specifier: &str) -> (r: String)
    ensures
        r@ == resolve_spec(base@, specifier@),
{
    if specifier.unicode_len() > 0 && specifier.get_char(0) == '/' {
        canonical(specifier)
    } else {
        let base_segs = split_segments(base);
        let empty: Vec<String> = Vec::new();
        proof {
            assert(empty@.map_values(|t: String| t@) =~= Seq::<Seq<char>>::empty());
        }
        let mut stack = normalize_from(empty, &base_segs);
        if stack.len() > 0 {
            let _ = stack.pop();
            proof {
                assert(stack@.map_values(|t: String| t@) =~= parent_segments(base@));
            }
        }
        let spec_segs = split_segments(specifier);
        let resolved = normalize_from(stack, &spec_segs);
        join_segments(&resolved)
    }
}

} // verus!
