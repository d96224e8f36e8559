//! Command-line arguments, as the library sees them: plain strings, with
//! the path-normalization logic that fills in the defaults.

use vstd::prelude::*;
use vstd::string::{StrSliceExecFns, StringExecFns};

verus! {

/// The command-line arguments.
#[derive(Debug, Clone)]
pub struct Args {
    /// Command for starting the language server.
    pub init_server_command: String,
    /// The language to index.
    pub language: String,
    /// Optional arguments for the language server.
    pub server_args: Option<String>,
    /// Path to the root of the project.
    pub project_root: Option<String>,
    /// The output file.
    pub output: Option<String>,
}

/// The path split on `'/'` from position `i` on, `cur` being the segment
/// under construction. Every separator ends a segment, so repeated
/// separators yield empty segments.
pub open spec fn path_segments(s: Seq<char>, i: int, cur: Seq<char>) -> Seq<Seq<char>>
    decreases s.len() - i,
    when i >= 0
{
    if i >= s.len() {
        seq![cur]
    } else if s[i] == '/' {
        seq![cur] + path_segments(s, i + 1, Seq::empty())
    } else {
        path_segments(s, i + 1, cur.push(s[i]))
    }
}

/// All segments of a path.
pub open spec fn spec_segments(s: Seq<char>) -> Seq<Seq<char>> {
    path_segments(s, 0, Seq::empty())
}

/// Processes segments left to right: empty segments and `.` vanish, `..`
/// removes the segment before it (if any), anything else stays.
pub open spec fn normalize_segments(segs: Seq<Seq<char>>, i: int, stack: Seq<Seq<char>>) -> Seq<
    Seq<char>,
>
    decreases segs.len() - i,
    when i >= 0
{
    if i >= segs.len() {
        stack
    } else {
        let sg = segs[i];
        if sg.len() == 0 || sg == seq!['.'] {
            normalize_segments(segs, i + 1, stack)
        } else if sg == seq!['.', '.'] {
            normalize_segments(
                segs,
                i + 1,
                if stack.len() == 0 {
                    stack
                } else {
                    stack.drop_last()
                },
            )
        } else {
            normalize_segments(segs, i + 1, stack.push(sg))
        }
    }
}

/// Segments joined with `'/'`.
pub open spec fn join_segments(segs: Seq<Seq<char>>) -> Seq<char>
    decreases segs.len(),
{
    if segs.len() == 0 {
        Seq::empty()
    } else if segs.len() == 1 {
        segs[0]
    } else {
        join_segments(segs.drop_last()) + seq!['/'] + segs.last()
    }
}

/// A path begins with the root separator.
pub open spec fn rooted(s: Seq<char>) -> bool {
    s.len() > 0 && s[0] == '/'
}

/// The normal form of a path: its segments with `.`, empty segments and
/// `..` resolved, joined with `'/'`, keeping the leading root separator.
/// Like canonicalization, but without touching the file system.
pub open spec fn normal_form(s: Seq<char>) -> Seq<char> {
    let segs = normalize_segments(spec_segments(s), 0, Seq::empty());
    if rooted(s) {
        seq!['/'] + join_segments(segs)
    } else {
        join_segments(segs)
    }
}

/// The views of a list of segment strings.
pub open spec fn seg_views(v: Seq<String>) -> Seq<Seq<char>> {
    v.map_values(|x: String| x@)
}

/// Normalizes a path without requiring that it exists: `.` and empty
/// segments are dropped and `..` removes the preceding segment.
pub fn normalize_path(path: &str) -> (r: String)
    ensures
        r@ == normal_form(path@),
{
    let n = path.unicode_len();
    let mut segs: Vec<String> = Vec::new();
    let mut st: usize = 0;
    let mut i: usize = 0;
    proof {
        assert(path@.subrange(0, 0) =~= Seq::<char>::empty());
        assert(seg_views(segs@) =~= Seq::<Seq<char>>::empty());
        assert((seg_views(segs@) + path_segments(path@, 0, Seq::empty())) =~= path_segments(
            path@,
            0,
            Seq::empty(),
        ));
    }
    while i < n
        invariant
            st <= i <= n,
            n == path@.len(),
            spec_segments(path@) =~= seg_views(segs@) + path_segments(
                path@,
                i as int,
                path@.subrange(st as int, i as int),
            ),
        decreases n - i,
    {
        let c = path.get_char(i);
        if c == '/' {
            let seg = path.substring_char(st, i).to_owned();
            let ghost old_segs = segs@;
            segs.push(seg);
            proof {
                assert(seg_views(segs@) =~= seg_views(old_segs).push(seg@));
                assert(path@.subrange(i + 1, i + 1) =~= Seq::<char>::empty());
                assert((seg_views(old_segs) + (seq![seg@] + path_segments(
                    path@,
                    i + 1,
                    Seq::empty(),
                ))) =~= (seg_views(old_segs).push(seg@) + path_segments(
                    path@,
                    i + 1,
                    Seq::empty(),
                )));
            }
            st = i + 1;
        } else {
            proof {
                assert(path@.subrange(st as int, i as int).push(path@[i as int])
                    =~= path@.subrange(st as int, i + 1));
            }
        }
        i = i + 1;
    }
    let seg = path.substring_char(st, n).to_owned();
    let ghost old_segs = segs@;
    segs.push(seg);
    proof {
        assert(seg_views(segs@) =~= seg_views(old_segs).push(seg@));
        assert((seg_views(old_segs) + seq![seg@]) =~= seg_views(old_segs).push(seg@));
    }
    let dot = ".".to_owned();
    let dotdot = "..".to_owned();
    proof {
        reveal_strlit(".");
        reveal_strlit("..");
        assert(dot@ =~= seq!['.']);
        assert(dotdot@ =~= seq!['.', '.']);
    }
    let ghost all = seg_views(segs@);
    let mut stack: Vec<String> = Vec::new();
    let mut j: usize = 0;
    proof {
        assert(seg_views(stack@) =~= Seq::<Seq<char>>::empty());
    }
    while j < segs.len()
        invariant
            j <= segs@.len(),
            dot@ == seq!['.'],
            dotdot@ == seq!['.', '.'],
            all == seg_views(segs@),
            normalize_segments(all, 0, Seq::empty()) == normalize_segments(
                all,
                j as int,
                seg_views(stack@),
            ),
        decreases segs@.len() - j,
    {
        let sg = &segs[j];
        let ghost old_stack = stack@;
        if sg.as_str().unicode_len() == 0 || sg.eq(&dot) {
        } else if sg.eq(&dotdot) {
            if stack.len() > 0 {
                stack.pop();
                proof {
                    assert(seg_views(stack@) =~= seg_views(old_stack).drop_last());
                }
            }
        } else {
            stack.push(sg.clone());
            proof {
                assert(seg_views(stack@) =~= seg_views(old_stack).push(sg@));
            }
        }
        proof {
            assert(all[j as int] == segs@[j as int]@);
        }
        j = j + 1;
    }
    let mut out = String::new();
    let slash = "/".to_owned();
    proof {
        reveal_strlit("/");
        assert(slash@ =~= seq!['/']);
    }
    let is_rooted = if n > 0 {
        path.get_char(0) == '/'
    } else {
        false
    };
    if is_rooted {
        out.append(slash.as_str());
    }
    let ghost prefix = if rooted(path@) {
        seq!['/']
    } else {
        Seq::<char>::empty()
    };
    proof {
        assert(out@ =~= prefix);
    }
    let ghost result_segs = seg_views(stack@);
    let mut k: usize = 0;
    while k < stack.len()
        invariant
            k <= stack@.len(),
            slash@ == seq!['/'],
            result_segs == seg_views(stack@),
            out@ =~= prefix + join_segments(result_segs.take(k as int)),
        decreases stack@.len() - k,
    {
        if k > 0 {
            out.append(slash.as_str());
        }
        out.append(stack[k].as_str());
        proof {
            assert(result_segs.take(k + 1).drop_last() =~= result_segs.take(k as int));
            assert(result_segs.take(k + 1).last() == result_segs[k as int]);
            assert(result_segs[k as int] == stack@[k as int]@);
            if k == 0 {
                assert(join_segments(result_segs.take(1)) == result_segs[0]);
                assert(out@ =~= prefix + join_segments(result_segs.take(1)));
            } else {
                assert(join_segments(result_segs.take(k + 1)) == join_segments(
                    result_segs.take(k as int),
                ) + seq!['/'] + result_segs[k as int]);
                assert(out@ =~= prefix + join_segments(result_segs.take(k + 1)));
            }
        }
        k = k + 1;
    }
    proof {
        assert(result_segs.take(stack@.len() as int) =~= result_segs);
        assert(normalize_segments(all, segs@.len() as int, result_segs) == result_segs);
        assert(out@ =~= normal_form(path@));
    }
    out
}

impl Args {
    /// Fills in the defaulted paths: the project root becomes the given
    /// one (or the current directory), and the output becomes the given
    /// path normalized, or `dump.json` under the project root. The caller
    /// resolves the root against the file system before indexing.
    pub fn canonicalize_paths(&mut self)
        ensures
            final(self).project_root matches Some(p) && p@ == (match old(self).project_root {
                Some(r) => r@,
                None => "."@,
            }),
            final(self).output matches Some(o) && o@ == (match old(self).output {
                Some(q) => normal_form(q@),
                None => normal_form(
                    (match old(self).project_root {
                        Some(r) => r@,
                        None => "."@,
                    }) + "/dump.json"@,
                ),
            }),
            final(self).init_server_command == old(self).init_server_command,
            final(self).language == old(self).language,
            final(self).server_args == old(self).server_args,
    {
        let root: String = match &self.project_root {
            Some(r) => r.clone(),
            None => ".".to_owned(),
        };
        let out: String = match &self.output {
            Some(p) => normalize_path(p.as_str()),
            None => {
                let joined = root.clone().concat("/dump.json");
                normalize_path(joined.as_str())
            },
        };
        self.project_root = Some(root);
        self.output = Some(out);
    }
}

} // verus!
