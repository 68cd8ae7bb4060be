//! Path-string helpers: file kinds by extension, normalization, and
//! relative paths.  Paths are plain strings here; reading and writing files
//! happens outside the library.

use vstd::prelude::*;
use crate::text::{chars_to_string, str_chars};

verus! {

/// Whether the character separates path components.
pub open spec fn is_sep(c: char) -> bool {
    c == '/' || c == '\\'
}

/// The path without trailing separators.
pub open spec fn strip_trailing_seps(s: Seq<char>) -> Seq<char>
    decreases s.len(),
{
    if s.len() > 0 && is_sep(s.last()) {
        strip_trailing_seps(s.drop_last())
    } else {
        s
    }
}

/// The position after the last separator of `s`.
pub open spec fn last_sep_end(s: Seq<char>) -> int
    decreases s.len(),
{
    if s.len() == 0 {
        0
    } else if is_sep(s.last()) {
        s.len() as int
    } else {
        last_sep_end(s.drop_last())
    }
}

/// The file name of a path: the part after the last separator, trailing
/// separators ignored.
pub open spec fn file_name_spec(s: Seq<char>) -> Seq<char> {
    let t = strip_trailing_seps(s);
    t.subrange(last_sep_end(t), t.len() as int)
}

/// The position after the last dot of a file name.
pub open spec fn last_dot_end(s: Seq<char>) -> int
    decreases s.len(),
{
    if s.len() == 0 {
        0
    } else if s.last() == '.' {
        s.len() as int
    } else {
        last_dot_end(s.drop_last())
    }
}

/// The extension of a path: the part of its file name after the last dot; a
/// name without a dot, or with its only dot leading, has none.
pub open spec fn extension_spec(s: Seq<char>) -> Option<Seq<char>> {
    let name = file_name_spec(s);
    let d = last_dot_end(name);
    if d <= 1 {
        None
    } else {
        Some(name.subrange(d, name.len() as int))
    }
}

/// Finds the boundary a backward scan settles on: the first position from
/// the right whose predecessor satisfies the tested property.
fn scan_back(chars: &Vec<char>, end: usize, dot: bool) -> (r: usize)
    requires
        end <= chars@.len(),
    ensures
        r <= end,
        dot ==> r == last_dot_end(chars@.take(end as int)),
        !dot ==> r == last_sep_end(chars@.take(end as int)),
{
    let ghost t = chars@.take(end as int);
    let mut j = end;
    proof {
        assert(t.take(end as int) =~= t);
    }
    while j > 0
        invariant
            j <= end <= chars@.len(),
            t == chars@.take(end as int),
            dot ==> last_dot_end(t) == last_dot_end(t.take(j as int)),
            !dot ==> last_sep_end(t) == last_sep_end(t.take(j as int)),
        decreases j,
    {
        let c = chars[j - 1];
        let hit = if dot {
            c == '.'
        } else {
            c == '/' || c == '\\'
        };
        if hit {
            proof {
                if dot {
                    assert(t.take(j as int).last() == t[j - 1]);
                    assert(last_dot_end(t.take(j as int)) == j);
                } else {
                    assert(t.take(j as int).last() == t[j - 1]);
                    assert(last_sep_end(t.take(j as int)) == j);
                }
                assert(t.take(end as int) =~= t);
            }
            return j;
        }
        proof {
            assert(t.take(j as int).last() == t[j - 1]);
            assert(t.take(j as int).drop_last() =~= t.take(j - 1 as int));
        }
        j -= 1;
    }
    proof {
        assert(t.take(0) =~= Seq::<char>::empty());
        assert(t.take(end as int) =~= t);
    }
    0
}

/// The extension of the path, where it has one.
fn extension_of(path: &str) -> (r: Option<String>)
    ensures
        match r {
            Some(e) => extension_spec(path@) == Some(e@),
            None => extension_spec(path@) is None,
        },
{
    let chars = str_chars(path);
    // ignore trailing separators
    let mut end = chars.len();
    proof {
        assert(chars@.take(chars@.len() as int) =~= chars@);
    }
    while end > 0 && (chars[end - 1] == '/' || chars[end - 1] == '\\')
        invariant
            end <= chars@.len(),
            chars@ == path@,
            strip_trailing_seps(path@) == strip_trailing_seps(path@.take(end as int)),
        decreases end,
    {
        proof {
            assert(path@.take(end as int).last() == path@[end - 1]);
            assert(path@.take(end as int).drop_last() =~= path@.take(end - 1 as int));
        }
        end -= 1;
    }
    let ghost t = path@.take(end as int);
    proof {
        if end > 0 {
            assert(t.last() == path@[end - 1]);
        }
        assert(strip_trailing_seps(path@) =~= t);
    }
    // the file name starts after the last separator
    let name_start = scan_back(&chars, end, false);
    let ghost name = t.subrange(last_sep_end(t), t.len() as int);
    // the extension starts after the last dot of the name
    let dot_end = scan_back(&chars, end, true);
    proof {
        assert(file_name_spec(path@) == name);
        lemma_last_dot_of_suffix(t, last_sep_end(t));
    }
    if dot_end >= 1 && dot_end - 1 <= name_start {
        proof {
            if dot_end >= 1 && dot_end as int > last_sep_end(t) {
                assert(last_dot_end(name) == dot_end - last_sep_end(t));
            } else {
                assert(last_dot_end(name) == 0);
            }
        }
        None
    } else if dot_end == 0 {
        proof {
            assert(last_dot_end(name) == 0);
        }
        None
    } else {
        proof {
            assert(last_dot_end(name) == dot_end - last_sep_end(t));
            assert(name.subrange(last_dot_end(name), name.len() as int) =~= path@.subrange(
                dot_end as int,
                end as int,
            ));
        }
        let mut out: Vec<char> = Vec::new();
        let mut i = dot_end;
        while i < end
            invariant
                dot_end <= i <= end <= chars@.len(),
                chars@ == path@,
                out@ == path@.subrange(dot_end as int, i as int),
            decreases end - i,
        {
            out.push(chars[i]);
            proof {
                assert(path@.subrange(dot_end as int, i + 1 as int) =~= path@.subrange(
                    dot_end as int,
                    i as int,
                ).push(path@[i as int]));
            }
            i += 1;
        }
        Some(chars_to_string(&out))
    }
}

/// A dot search below a suffix boundary relativizes to the suffix.
proof fn lemma_last_dot_of_suffix(t: Seq<char>, b: int)
    requires
        0 <= b <= t.len(),
    ensures
        last_dot_end(t) > b ==> last_dot_end(t.subrange(b, t.len() as int)) == last_dot_end(t) - b,
        last_dot_end(t) <= b ==> last_dot_end(t.subrange(b, t.len() as int)) == 0,
    decreases t.len(),
{
    if t.len() == 0 {
    } else if t.last() == '.' {
        assert(t.subrange(b, t.len() as int).len() > 0 ==> t.subrange(b, t.len() as int).last()
            == t.last());
        if b == t.len() {
            assert(t.subrange(b, t.len() as int) =~= Seq::<char>::empty());
        }
    } else {
        lemma_last_dot_of_suffix(t.drop_last(), if b <= t.len() - 1 {
            b
        } else {
            t.len() - 1
        });
        if b < t.len() {
            assert(t.subrange(b, t.len() as int).last() == t.last());
            assert(t.subrange(b, t.len() as int).drop_last() =~= t.drop_last().subrange(
                b,
                t.len() - 1,
            ));
        } else {
            assert(t.subrange(b, t.len() as int) =~= Seq::<char>::empty());
        }
    }
}

/// Whether the path names a Lisp source file: extension `lisp` or `cl`.
pub fn is_lisp_file(path: &str) -> (r: bool)
    ensures
        r == (extension_spec(path@) == Some("lisp"@) || extension_spec(path@) == Some("cl"@)),
{
    proof {
        reveal_strlit("lisp");
        reveal_strlit("cl");
    }
    match extension_of(path) {
        None => false,
        Some(ext) => {
            let c = str_chars(ext.as_str());
            let is_lisp = c.len() == 4 && c[0] == 'l' && c[1] == 'i' && c[2] == 's' && c[3] == 'p';
            let is_cl = c.len() == 2 && c[0] == 'c' && c[1] == 'l';
            proof {
                if is_lisp {
                    assert(ext@ =~= "lisp"@);
                }
                if is_cl {
                    assert(ext@ =~= "cl"@);
                }
                if ext@ == "lisp"@ {
                    assert(c@.len() == 4 && c@[0] == 'l' && c@[1] == 'i' && c@[2] == 's' && c@[3]
                        == 'p');
                }
                if ext@ == "cl"@ {
                    assert(c@.len() == 2 && c@[0] == 'c' && c@[1] == 'l');
                }
            }
            is_lisp || is_cl
        },
    }
}

/// Whether the path names a compiled artifact: extension `fasl`.
pub fn is_fasl_file(path: &str) -> (r: bool)
    ensures
        r == (extension_spec(path@) == Some("fasl"@)),
{
    proof {
        reveal_strlit("fasl");
    }
    match extension_of(path) {
        None => false,
        Some(ext) => {
            let c = str_chars(ext.as_str());
            let hit = c.len() == 4 && c[0] == 'f' && c[1] == 'a' && c[2] == 's' && c[3] == 'l';
            proof {
                if hit {
                    assert(ext@ =~= "fasl"@);
                }
                if ext@ == "fasl"@ {
                    assert(c@.len() == 4 && c@[0] == 'f' && c@[1] == 'a' && c@[2] == 's' && c@[3]
                        == 'l');
                }
            }
            hit
        },
    }
}

/// Whether two paths are the same text.
pub fn paths_are_eq(path1: &str, path2: &str) -> (r: bool)
    ensures
        r == (path1@ == path2@),
{
    let a = str_chars(path1);
    let b = str_chars(path2);
    crate::text::vec_char_eq(&a, &b)
}

/// The path with every backslash replaced by a forward slash.
pub open spec fn normalize_spec(s: Seq<char>) -> Seq<char> {
    s.map_values(
        |c: char|
            if c == '\\' {
                '/'
            } else {
                c
            },
    )
}

/// Normalizes separators: every backslash becomes a forward slash.
pub fn normalize_path(path: &str) -> (r: String)
    ensures
        r@ == normalize_spec(path@),
{
    let chars = str_chars(path);
    let mut out: Vec<char> = Vec::new();
    let mut i: usize = 0;
    while i < chars.len()
        invariant
            i <= chars@.len(),
            chars@ == path@,
            out@ == normalize_spec(path@).take(i as int),
        decreases chars@.len() - i,
    {
        let c = chars[i];
        if c == '\\' {
            out.push('/');
        } else {
            out.push(c);
        }
        proof {
            assert(normalize_spec(path@).take(i + 1 as int) =~= normalize_spec(path@).take(
                i as int,
            ).push(normalize_spec(path@)[i as int]));
        }
        i += 1;
    }
    proof {
        assert(normalize_spec(path@).take(chars@.len() as int) =~= normalize_spec(path@));
    }
    chars_to_string(&out)
}

/// The file name of the path: the part after the last separator.
pub fn path_to_node_name(path: &str) -> (r: String)
    ensures
        r@ == file_name_spec(path@),
{
    let chars = str_chars(path);
    let mut end = chars.len();
    proof {
        assert(chars@.take(chars@.len() as int) =~= chars@);
    }
    while end > 0 && (chars[end - 1] == '/' || chars[end - 1] == '\\')
        invariant
            end <= chars@.len(),
            chars@ == path@,
            strip_trailing_seps(path@) == strip_trailing_seps(path@.take(end as int)),
        decreases end,
    {
        proof {
            assert(path@.take(end as int).last() == path@[end - 1]);
            assert(path@.take(end as int).drop_last() =~= path@.take(end - 1 as int));
        }
        end -= 1;
    }
    let ghost t = path@.take(end as int);
    proof {
        if end > 0 {
            assert(t.last() == path@[end - 1]);
        }
        assert(strip_trailing_seps(path@) =~= t);
    }
    let start = scan_back(&chars, end, false);
    let mut out: Vec<char> = Vec::new();
    let mut i = start;
    while i < end
        invariant
            start <= i <= end <= chars@.len(),
            chars@ == path@,
            out@ == path@.subrange(start as int, i as int),
        decreases end - i,
    {
        out.push(chars[i]);
        proof {
            assert(path@.subrange(start as int, i + 1 as int) =~= path@.subrange(
                start as int,
                i as int,
            ).push(path@[i as int]));
        }
        i += 1;
    }
    proof {
        assert(path@.subrange(start as int, end as int) =~= t.subrange(
            last_sep_end(t),
            t.len() as int,
        ));
    }
    chars_to_string(&out)
}

/// The path relative to the root: the text after the root prefix, leading
/// separators dropped, separators normalized.
pub open spec fn rel_path_spec(root: Seq<char>, full: Seq<char>) -> Seq<char> {
    normalize_spec(strip_leading_seps(full.skip(root.len() as int)))
}

/// The path without leading separators.
pub open spec fn strip_leading_seps(s: Seq<char>) -> Seq<char>
    decreases s.len(),
{
    if s.len() > 0 && is_sep(s[0]) {
        strip_leading_seps(s.skip(1))
    } else {
        s
    }
}

/// The path of `full_path` relative to `root_folder`, with separators
/// normalized; `full_path` must lie under the root.
pub fn to_rel_path(root_folder: &str, full_path: &str) -> (r: String)
    requires
        crate::parsing::starts_with_spec(full_path@, root_folder@),
    ensures
        r@ == rel_path_spec(root_folder@, full_path@),
{
    let chars = str_chars(full_path);
    let root = str_chars(root_folder);
    let mut i = root.len();
    proof {
        assert(full_path@.skip(root_folder@.len() as int).skip(0) =~= full_path@.skip(
            root_folder@.len() as int,
        ));
    }
    while i < chars.len() && (chars[i] == '/' || chars[i] == '\\')
        invariant
            root@.len() <= i <= chars@.len(),
            chars@ == full_path@,
            root@ == root_folder@,
            strip_leading_seps(full_path@.skip(root_folder@.len() as int)) == strip_leading_seps(
                full_path@.skip(i as int),
            ),
        decreases chars@.len() - i,
    {
        proof {
            assert(full_path@.skip(i as int)[0] == full_path@[i as int]);
            assert(full_path@.skip(i as int).skip(1) =~= full_path@.skip(i + 1 as int));
        }
        i += 1;
    }
    proof {
        if i < chars@.len() {
            assert(full_path@.skip(i as int)[0] == full_path@[i as int]);
        } else {
            assert(full_path@.skip(i as int) =~= Seq::<char>::empty());
        }
        assert(strip_leading_seps(full_path@.skip(root_folder@.len() as int)) =~= full_path@.skip(
            i as int,
        ));
    }
    let mut out: Vec<char> = Vec::new();
    let ghost rest = full_path@.skip(i as int);
    let mut j = i;
    while j < chars.len()
        invariant
            i <= j <= chars@.len(),
            chars@ == full_path@,
            rest == full_path@.skip(i as int),
            out@ == normalize_spec(rest).take(j - i),
        decreases chars@.len() - j,
    {
        let c = chars[j];
        proof {
            assert(rest[j - i] == full_path@[j as int]);
            assert(normalize_spec(rest).take(j + 1 - i) =~= normalize_spec(rest).take(j - i).push(
                normalize_spec(rest)[j - i],
            ));
        }
        if c == '\\' {
            out.push('/');
        } else {
            out.push(c);
        }
        j += 1;
    }
    proof {
        assert(normalize_spec(rest).take(chars@.len() - i) =~= normalize_spec(rest));
    }
    chars_to_string(&out)
}

} // verus!
