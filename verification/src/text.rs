//! Text utilities: quote escaping and trimming, tokenizing for the file
//! index, and window/line helpers for search results.

use vstd::prelude::*;

verus! {

//
// Conversions between strings and character vectors.
//

/// Relies on `str::chars`: yields the characters of the string, in order.
#[verifier::external_body]
pub(crate) fn str_chars(s: &str) -> (r: Vec<char>)
    ensures
        r@ == s@,
{
    s.chars().collect()
}

/// Relies on `String`'s `FromIterator<char>` impl: collects characters in
/// order into a string.
#[verifier::external_body]
pub(crate) fn chars_to_string(v: &Vec<char>) -> (r: String)
    ensures
        r@ == v@,
{
    v.iter().collect()
}

/// What `str::to_lowercase` returns; it depends on the characters alone.
pub uninterp spec fn lower_of(s: Seq<char>) -> Seq<char>;

/// Relies on `str::to_lowercase`: Unicode lowercasing, a function of the
/// characters alone; an empty string stays empty.
#[verifier::external_body]
pub(crate) fn lowercase(s: &str) -> (r: String)
    ensures
        r@ == lower_of(s@),
        s@.len() == 0 ==> r@.len() == 0,
{
    s.to_lowercase()
}

//
// Quote escaping.
//

/// `text` with every double quote preceded by a backslash.
pub open spec fn escape_quotes_spec(s: Seq<char>) -> Seq<char>
    decreases s.len(),
{
    if s.len() == 0 {
        Seq::empty()
    } else {
        escape_quotes_spec(s.drop_last()) + (if s.last() == '"' {
            seq!['\\', '"']
        } else {
            seq![s.last()]
        })
    }
}

/// Escapes double quotes: `"` becomes `\"`.
pub fn escape_quotes(text: &str) -> (r: String)
    ensures
        r@ == escape_quotes_spec(text@),
{
    let chars = str_chars(text);
    let mut out: Vec<char> = Vec::new();
    let mut i: usize = 0;
    while i < chars.len()
        invariant
            i <= chars.len(),
            chars@ == text@,
            out@ == escape_quotes_spec(text@.take(i as int)),
        decreases chars.len() - i,
    {
        let c = chars[i];
        if c == '"' {
            out.push('\\');
            out.push('"');
        } else {
            out.push(c);
        }
        proof {
            assert(text@.take(i + 1 as int).drop_last() =~= text@.take(i as int));
            assert(text@.take(i + 1 as int).last() == text@[i as int]);
        }
        i += 1;
    }
    proof {
        assert(text@.take(chars@.len() as int) =~= text@);
    }
    chars_to_string(&out)
}

/// `text` with every double quote and every backslash preceded by a backslash.
pub open spec fn escape_form_spec(s: Seq<char>) -> Seq<char>
    decreases s.len(),
{
    if s.len() == 0 {
        Seq::empty()
    } else {
        escape_form_spec(s.drop_last()) + (if s.last() == '"' || s.last() == '\\' {
            seq!['\\', s.last()]
        } else {
            seq![s.last()]
        })
    }
}

/// Escapes a form for embedding in a quoted Lisp string: each `"` and `\`
/// gets a leading backslash.
pub fn escape_form(text: &str) -> (r: String)
    ensures
        r@ == escape_form_spec(text@),
{
    let chars = str_chars(text);
    let mut out: Vec<char> = Vec::new();
    let mut i: usize = 0;
    while i < chars.len()
        invariant
            i <= chars.len(),
            chars@ == text@,
            out@ == escape_form_spec(text@.take(i as int)),
        decreases chars.len() - i,
    {
        let c = chars[i];
        if c == '"' || c == '\\' {
            out.push('\\');
        }
        out.push(c);
        proof {
            assert(text@.take(i + 1 as int).drop_last() =~= text@.take(i as int));
            assert(text@.take(i + 1 as int).last() == text@[i as int]);
        }
        i += 1;
    }
    proof {
        assert(text@.take(chars@.len() as int) =~= text@);
    }
    chars_to_string(&out)
}

/// `text` with every `\"` pair collapsed to `"`, scanning left to right.
pub open spec fn unescape_quotes_spec(s: Seq<char>) -> Seq<char>
    decreases s.len(),
{
    if s.len() == 0 {
        Seq::empty()
    } else if s.len() >= 2 && s[0] == '\\' && s[1] == '"' {
        seq!['"'] + unescape_quotes_spec(s.skip(2))
    } else {
        seq![s[0]] + unescape_quotes_spec(s.skip(1))
    }
}

/// Undoes quote escaping: `\"` becomes `"`.
pub fn unescape_quotes(text: &str) -> (r: String)
    ensures
        r@ == unescape_quotes_spec(text@),
{
    let chars = str_chars(text);
    let mut out: Vec<char> = Vec::new();
    let mut i: usize = 0;
    proof {
        assert(text@.skip(0) =~= text@);
        assert(out@ + unescape_quotes_spec(text@) =~= unescape_quotes_spec(text@));
    }
    while i < chars.len()
        invariant
            i <= chars.len(),
            chars@ == text@,
            out@ + unescape_quotes_spec(text@.skip(i as int)) == unescape_quotes_spec(text@),
        decreases chars.len() - i,
    {
        if chars[i] == '\\' && i + 1 < chars.len() && chars[i + 1] == '"' {
            out.push('"');
            proof {
                assert(text@.skip(i as int).skip(2) =~= text@.skip(i + 2 as int));
            }
            i += 2;
        } else {
            out.push(chars[i]);
            proof {
                assert(text@.skip(i as int).skip(1) =~= text@.skip(i + 1 as int));
                assert(text@.skip(i as int)[0] == text@[i as int]);
            }
            i += 1;
        }
    }
    proof {
        assert(text@.skip(chars@.len() as int) =~= Seq::<char>::empty());
    }
    chars_to_string(&out)
}

//
// Trimming.
//

/// The text without a leading `#'` or `'` quote operator; a bare `'` prefix
/// also drops the character after it.
pub open spec fn trim_quote_op_spec(s: Seq<char>) -> Seq<char> {
    if s.len() >= 2 && s[0] == '#' && s[1] == '\'' {
        s.skip(2)
    } else if s.len() >= 1 && s[0] == '\'' {
        if s.len() >= 2 {
            s.skip(2)
        } else {
            Seq::empty()
        }
    } else {
        s
    }
}

/// Removes a leading `#'` or `'` quote operator (two characters either way).
pub fn trim_quote_op(text: String) -> (r: String)
    ensures
        r@ == trim_quote_op_spec(text@),
{
    let chars = str_chars(text.as_str());
    if chars.len() >= 2 && chars[0] == '#' && chars[1] == '\'' {
        let rest: Vec<char> = slice_tail(&chars, 2);
        chars_to_string(&rest)
    } else if chars.len() >= 1 && chars[0] == '\'' {
        let k: usize = if chars.len() >= 2 {
            2
        } else {
            chars.len()
        };
        let rest: Vec<char> = slice_tail(&chars, k);
        proof {
            if chars@.len() < 2 {
                assert(chars@.skip(chars@.len() as int) =~= Seq::<char>::empty());
            }
        }
        chars_to_string(&rest)
    } else {
        text
    }
}

/// Copies the elements of `v` from position `k` on.
fn slice_tail(v: &Vec<char>, k: usize) -> (r: Vec<char>)
    requires
        k <= v@.len(),
    ensures
        r@ == v@.skip(k as int),
{
    let mut out: Vec<char> = Vec::new();
    let mut i: usize = k;
    while i < v.len()
        invariant
            k <= i <= v@.len(),
            out@ == v@.subrange(k as int, i as int),
        decreases v.len() - i,
    {
        out.push(v[i]);
        proof {
            assert(v@.subrange(k as int, i + 1 as int) =~= v@.subrange(k as int, i as int).push(
                v@[i as int],
            ));
        }
        i += 1;
    }
    proof {
        assert(v@.subrange(k as int, v@.len() as int) =~= v@.skip(k as int));
    }
    out
}

/// The text without one leading and one trailing double quote, where present.
pub open spec fn trim_quotes_spec(s: Seq<char>) -> Seq<char> {
    let t = if s.len() >= 1 && s[0] == '"' {
        s.skip(1)
    } else {
        s
    };
    if t.len() >= 1 && t.last() == '"' {
        t.drop_last()
    } else {
        t
    }
}

/// Removes one leading and one trailing double quote, where present.
pub fn trim_quotes(text: String) -> (r: String)
    ensures
        r@ == trim_quotes_spec(text@),
{
    let chars = str_chars(text.as_str());
    let start: usize = if chars.len() >= 1 && chars[0] == '"' {
        1
    } else {
        0
    };
    let end: usize = if chars.len() >= start + 1 && chars[chars.len() - 1] == '"' {
        chars.len() - 1
    } else {
        chars.len()
    };
    let mid = slice_range(&chars, start, end);
    proof {
        let s = text@;
        let t = if s.len() >= 1 && s[0] == '"' {
            s.skip(1)
        } else {
            s
        };
        assert(s.subrange(start as int, end as int) =~= trim_quotes_spec(s));
    }
    chars_to_string(&mid)
}

/// Copies the elements of `v` in positions `from..to`.
fn slice_range(v: &Vec<char>, from: usize, to: usize) -> (r: Vec<char>)
    requires
        from <= to <= v@.len(),
    ensures
        r@ == v@.subrange(from as int, to as int),
{
    let mut out: Vec<char> = Vec::new();
    let mut i: usize = from;
    while i < to
        invariant
            from <= i <= to <= v@.len(),
            out@ == v@.subrange(from as int, i as int),
        decreases to - i,
    {
        out.push(v[i]);
        proof {
            assert(v@.subrange(from as int, i + 1 as int) =~= v@.subrange(from as int, i as int)
                .push(v@[i as int]));
        }
        i += 1;
    }
    out
}

/// The text without one leading and one trailing escaped quote `\"`.
pub open spec fn trim_escaped_quotes_spec(s: Seq<char>) -> Seq<char> {
    let t = if s.len() >= 2 && s[0] == '\\' && s[1] == '"' {
        s.skip(2)
    } else {
        s
    };
    if t.len() >= 2 && t[t.len() - 2] == '\\' && t.last() == '"' {
        t.take(t.len() - 2)
    } else {
        t
    }
}

/// Removes one leading and one trailing escaped quote (`\"`), where present.
pub fn trim_escaped_quotes(text: String) -> (r: String)
    ensures
        r@ == trim_escaped_quotes_spec(text@),
{
    let chars = str_chars(text.as_str());
    let start: usize = if chars.len() >= 2 && chars[0] == '\\' && chars[1] == '"' {
        2
    } else {
        0
    };
    let len_left = chars.len() - start;
    let end: usize = if len_left >= 2 && chars[chars.len() - 2] == '\\' && chars[chars.len() - 1]
        == '"' {
        chars.len() - 2
    } else {
        chars.len()
    };
    let mid = slice_range(&chars, start, end);
    proof {
        assert(text@.subrange(start as int, end as int) =~= trim_escaped_quotes_spec(text@));
    }
    chars_to_string(&mid)
}

/// The text without one leading `(` and one trailing `)`, where present.
pub open spec fn trim_parens_spec(s: Seq<char>) -> Seq<char> {
    let t = if s.len() >= 1 && s[0] == '(' {
        s.skip(1)
    } else {
        s
    };
    if t.len() >= 1 && t.last() == ')' {
        t.drop_last()
    } else {
        t
    }
}

/// Removes one leading `(` and one trailing `)`, where present.
pub fn trim_parens(text: String) -> (r: String)
    ensures
        r@ == trim_parens_spec(text@),
{
    let chars = str_chars(text.as_str());
    let start: usize = if chars.len() >= 1 && chars[0] == '(' {
        1
    } else {
        0
    };
    let end: usize = if chars.len() >= start + 1 && chars[chars.len() - 1] == ')' {
        chars.len() - 1
    } else {
        chars.len()
    };
    let mid = slice_range(&chars, start, end);
    proof {
        assert(text@.subrange(start as int, end as int) =~= trim_parens_spec(text@));
    }
    chars_to_string(&mid)
}

/// The text, quoted with a leading `'` unless it already starts with `'` or `#'`.
pub open spec fn quote_spec(s: Seq<char>) -> Seq<char> {
    if s.len() >= 2 && s[0] == '#' && s[1] == '\'' {
        s
    } else if s.len() >= 1 && s[0] == '\'' {
        s
    } else {
        seq!['\''] + s
    }
}

/// Prefixes the text with the quote operator `'` unless it is already quoted.
pub fn quote(text: &str) -> (r: String)
    ensures
        r@ == quote_spec(text@),
{
    let chars = str_chars(text);
    if chars.len() >= 2 && chars[0] == '#' && chars[1] == '\'' {
        chars_to_string(&chars)
    } else if chars.len() >= 1 && chars[0] == '\'' {
        chars_to_string(&chars)
    } else {
        let mut out: Vec<char> = Vec::new();
        out.push('\'');
        let mut i: usize = 0;
        while i < chars.len()
            invariant
                i <= chars.len(),
                chars@ == text@,
                out@ == seq!['\''] + text@.take(i as int),
            decreases chars.len() - i,
        {
            out.push(chars[i]);
            proof {
                assert(text@.take(i + 1 as int) =~= text@.take(i as int).push(text@[i as int]));
            }
            i += 1;
        }
        proof {
            assert(text@.take(chars@.len() as int) =~= text@);
        }
        chars_to_string(&out)
    }
}

/// Whether the sequence contains the given character.
pub open spec fn seq_contains_char(s: Seq<char>, c: char) -> bool {
    exists|i: int| 0 <= i < s.len() && s[i] == c
}

/// The separator the text leans toward: backslash where it contains one,
/// else a forward slash.
pub open spec fn lean_slash(s: Seq<char>) -> char {
    if seq_contains_char(s, '\\') {
        '\\'
    } else {
        '/'
    }
}

/// The text with a leading and a trailing slash added where missing, each in
/// the flavor (`/` or `\`) that the text already uses.
pub open spec fn add_slashes_spec(s: Seq<char>) -> Seq<char> {
    let w = if s.len() >= 1 && (s[0] == '\\' || s[0] == '/') {
        s
    } else {
        seq![lean_slash(s)] + s
    };
    if w.len() >= 1 && (w.last() == '\\' || w.last() == '/') {
        w
    } else {
        w + seq![lean_slash(w)]
    }
}

/// Whether the vector contains the given character.
fn vec_contains_char(v: &Vec<char>, c: char) -> (r: bool)
    ensures
        r == seq_contains_char(v@, c),
{
    let mut i: usize = 0;
    while i < v.len()
        invariant
            i <= v@.len(),
            forall|j: int| 0 <= j < i ==> v@[j] != c,
        decreases v.len() - i,
    {
        if v[i] == c {
            return true;
        }
        i += 1;
    }
    false
}

/// Ensures the text starts and ends with a path separator, matching the
/// separator flavor already present in the text.
pub fn add_leading_and_trailing_slash(text: String) -> (r: String)
    ensures
        r@ == add_slashes_spec(text@),
{
    let chars = str_chars(text.as_str());
    let mut work: Vec<char> = Vec::new();
    if !(chars.len() >= 1 && (chars[0] == '\\' || chars[0] == '/')) {
        let lead: char = if vec_contains_char(&chars, '\\') {
            '\\'
        } else {
            '/'
        };
        work.push(lead);
    }
    let mut i: usize = 0;
    while i < chars.len()
        invariant
            i <= chars.len(),
            chars@ == text@,
            work@ == (if !(text@.len() >= 1 && (text@[0] == '\\' || text@[0] == '/')) {
                seq![lean_slash(text@)]
            } else {
                Seq::<char>::empty()
            }) + text@.take(i as int),
        decreases chars.len() - i,
    {
        work.push(chars[i]);
        proof {
            assert(text@.take(i + 1 as int) =~= text@.take(i as int).push(text@[i as int]));
        }
        i += 1;
    }
    proof {
        assert(text@.take(chars@.len() as int) =~= text@);
    }
    let ghost w = if text@.len() >= 1 && (text@[0] == '\\' || text@[0] == '/') {
        text@
    } else {
        seq![lean_slash(text@)] + text@
    };
    assert(work@ =~= w);
    if !(work.len() >= 1 && (work[work.len() - 1] == '\\' || work[work.len() - 1] == '/')) {
        let tail: char = if vec_contains_char(&work, '\\') {
            '\\'
        } else {
            '/'
        };
        work.push(tail);
    }
    chars_to_string(&work)
}

//
// Tokenizing for the file index.
//

/// The token separators: whitespace, path separators, punctuation and Lisp
/// operator characters.
pub open spec fn is_delim(c: char) -> bool {
    c == ' ' || c == '/' || c == '\\' || c == ',' || c == '_' || c == '$' || c == '\'' || c == '"'
        || c == ';' || c == ':' || c == '.' || c == '+' || c == '*' || c == '`' || c == '&' || c
        == '(' || c == ')' || c == '?' || c == '!' || c == '<' || c == '>' || c == '-'
}

/// Splits `s` at each separator, `cur` being the token read so far;
/// consecutive separators yield empty tokens.
pub open spec fn split_go(s: Seq<char>, cur: Seq<char>) -> Seq<Seq<char>>
    decreases s.len(),
{
    if s.len() == 0 {
        seq![cur]
    } else if is_delim(s[0]) {
        seq![cur] + split_go(s.skip(1), Seq::empty())
    } else {
        split_go(s.skip(1), cur.push(s[0]))
    }
}

/// The tokens of `s`: maximal runs between separators, empties included.
pub open spec fn split_delims(s: Seq<char>) -> Seq<Seq<char>> {
    split_go(s, Seq::empty())
}

/// The views of a vector of character vectors.
pub open spec fn seg_views(s: Seq<Vec<char>>) -> Seq<Seq<char>> {
    s.map_values(|v: Vec<char>| v@)
}

/// Whether the given character is a token separator.
pub fn is_delim_char(c: char) -> (r: bool)
    ensures
        r == is_delim(c),
{
    c == ' ' || c == '/' || c == '\\' || c == ',' || c == '_' || c == '$' || c == '\'' || c == '"'
        || c == ';' || c == ':' || c == '.' || c == '+' || c == '*' || c == '`' || c == '&' || c
        == '(' || c == ')' || c == '?' || c == '!' || c == '<' || c == '>' || c == '-'
}

/// Splits the characters at each separator, keeping empty tokens.
fn split_segments(chars: &Vec<char>) -> (r: Vec<Vec<char>>)
    ensures
        seg_views(r@) == split_delims(chars@),
{
    let mut done: Vec<Vec<char>> = Vec::new();
    let mut cur: Vec<char> = Vec::new();
    let mut i: usize = 0;
    proof {
        assert(chars@.skip(0) =~= chars@);
        assert(seg_views(done@) + split_go(chars@, cur@) =~= split_go(chars@, cur@));
    }
    while i < chars.len()
        invariant
            i <= chars.len(),
            seg_views(done@) + split_go(chars@.skip(i as int), cur@) == split_delims(chars@),
        decreases chars.len() - i,
    {
        let ghost rest = chars@.skip(i as int);
        let c = chars[i];
        proof {
            assert(rest[0] == chars@[i as int]);
            assert(rest.skip(1) =~= chars@.skip(i + 1 as int));
        }
        if is_delim_char(c) {
            let finished = cur;
            cur = Vec::new();
            proof {
                assert(seg_views(done@.push(finished)) =~= seg_views(done@) + seq![finished@]);
                assert((seg_views(done@) + seq![finished@]) + split_go(
                    chars@.skip(i + 1 as int),
                    Seq::empty(),
                ) =~= seg_views(done@) + (seq![finished@] + split_go(
                    chars@.skip(i + 1 as int),
                    Seq::empty(),
                )));
            }
            done.push(finished);
        } else {
            cur.push(c);
        }
        i += 1;
    }
    proof {
        assert(chars@.skip(chars@.len() as int) =~= Seq::<char>::empty());
        assert(seg_views(done@.push(cur)) =~= seg_views(done@) + seq![cur@]);
    }
    done.push(cur);
    done
}

/// The FNV-1a offset basis for 64-bit hashes.
pub const FNV_OFFSET: u64 = 0xcbf29ce484222325;

/// The FNV-1a prime for 64-bit hashes.
pub const FNV_PRIME: u64 = 0x100000001b3;

/// One FNV-1a step: mix one byte into the running hash.
pub open spec fn fnv_step(h: u64, b: u8) -> u64 {
    vstd::wrapping::u64_specs::wrapping_mul(h ^ (b as u64), FNV_PRIME)
}

/// Folds FNV-1a over the remaining bytes, `h` being the hash so far.
pub open spec fn fnv_go(bytes: Seq<u8>, h: u64) -> u64
    decreases bytes.len(),
{
    if bytes.len() == 0 {
        h
    } else {
        fnv_go(bytes.skip(1), fnv_step(h, bytes[0]))
    }
}

/// The 64-bit FNV-1a hash of the UTF-8 encoding of the characters.
pub open spec fn hash_of(t: Seq<char>) -> u64 {
    fnv_go(vstd::utf8::encode_utf8(t), FNV_OFFSET)
}

/// The UTF-8 byte length of the characters.
pub open spec fn byte_len(t: Seq<char>) -> nat {
    vstd::utf8::encode_utf8(t).len()
}

/// The UTF-8 byte length of the text.
pub fn byte_length(s: &str) -> (n: usize)
    ensures
        n == byte_len(s@),
{
    let b = s.as_bytes();
    b.len()
}

/// The 64-bit FNV-1a hash of the text's UTF-8 bytes.
pub fn u64_hash(text: &str) -> (r: u64)
    ensures
        r == hash_of(text@),
{
    let bytes = text.as_bytes();
    let mut h: u64 = FNV_OFFSET;
    let mut i: usize = 0;
    proof {
        assert(bytes@.skip(0) =~= bytes@);
    }
    while i < bytes.len()
        invariant
            i <= bytes@.len(),
            bytes@ == vstd::utf8::encode_utf8(text@),
            fnv_go(bytes@.skip(i as int), h) == hash_of(text@),
        decreases bytes@.len() - i,
    {
        let ghost rest = bytes@.skip(i as int);
        let b = bytes[i];
        proof {
            assert(rest[0] == bytes@[i as int]);
            assert(rest.skip(1) =~= bytes@.skip(i + 1 as int));
        }
        h = (h ^ (b as u64)).wrapping_mul(FNV_PRIME);
        i += 1;
    }
    proof {
        assert(bytes@.skip(bytes@.len() as int) =~= Seq::<u8>::empty());
    }
    h
}

/// The hashes of the tokens whose UTF-8 length exceeds `min`, in order.
pub open spec fn hashed_tokens(segs: Seq<Seq<char>>, min: nat) -> Seq<u64>
    decreases segs.len(),
{
    if segs.len() == 0 {
        Seq::empty()
    } else {
        (if byte_len(segs[0]) > min {
            seq![hash_of(segs[0])]
        } else {
            Seq::empty()
        }) + hashed_tokens(segs.drop_first(), min)
    }
}

/// Lowercases the text, splits it at the separators, and hashes every token
/// longer than two bytes.
pub fn tokenize_lowercase(text: &str) -> (r: Vec<u64>)
    ensures
        r@ == hashed_tokens(split_delims(lower_of(text@)), 2),
{
    let low = lowercase(text);
    let chars = str_chars(low.as_str());
    let segs = split_segments(&chars);
    let ghost sv = seg_views(segs@);
    let mut out: Vec<u64> = Vec::new();
    let mut i: usize = 0;
    proof {
        assert(sv.skip(0) =~= sv);
        assert(out@ + hashed_tokens(sv, 2) =~= hashed_tokens(sv, 2));
    }
    while i < segs.len()
        invariant
            i <= segs@.len(),
            sv == seg_views(segs@),
            sv == split_delims(lower_of(text@)),
            out@ + hashed_tokens(sv.skip(i as int), 2) == hashed_tokens(sv, 2),
        decreases segs@.len() - i,
    {
        let ghost rest = sv.skip(i as int);
        proof {
            assert(rest[0] == sv[i as int]);
            assert(rest.drop_first() =~= sv.skip(i + 1 as int));
            assert(sv[i as int] == segs@[i as int]@);
        }
        let token = chars_to_string(&segs[i]);
        if byte_length(token.as_str()) > 2 {
            let hv = u64_hash(token.as_str());
            proof {
                assert((out@ + seq![hash_of(rest[0])]) + hashed_tokens(rest.drop_first(), 2)
                    =~= out@ + (seq![hash_of(rest[0])] + hashed_tokens(rest.drop_first(), 2)));
                assert(out@.push(hv) =~= out@ + seq![hash_of(rest[0])]);
            }
            out.push(hv);
        } else {
            proof {
                assert(Seq::<u64>::empty() + hashed_tokens(rest.drop_first(), 2) =~= hashed_tokens(
                    rest.drop_first(),
                    2,
                ));
            }
        }
        i += 1;
    }
    proof {
        assert(sv.skip(sv.len() as int) =~= Seq::<Seq<char>>::empty());
    }
    out
}

/// The tokens whose UTF-8 length exceeds `min`, in order.
pub open spec fn long_tokens(segs: Seq<Seq<char>>, min: nat) -> Seq<Seq<char>>
    decreases segs.len(),
{
    if segs.len() == 0 {
        Seq::empty()
    } else {
        (if byte_len(segs[0]) > min {
            seq![segs[0]]
        } else {
            Seq::empty()
        }) + long_tokens(segs.drop_first(), min)
    }
}

/// The sequence with later duplicates removed: each token keeps only its
/// first occurrence.
pub open spec fn dedup_first(segs: Seq<Seq<char>>) -> Seq<Seq<char>>
    decreases segs.len(),
{
    if segs.len() == 0 {
        Seq::empty()
    } else {
        dedup_first(segs.drop_last()) + (if segs.drop_last().contains(segs.last()) {
            Seq::empty()
        } else {
            seq![segs.last()]
        })
    }
}

/// Removing later duplicates keeps membership.
proof fn lemma_dedup_first_membership(segs: Seq<Seq<char>>, x: Seq<char>)
    ensures
        dedup_first(segs).contains(x) <==> segs.contains(x),
    decreases segs.len(),
{
    if segs.len() > 0 {
        lemma_dedup_first_membership(segs.drop_last(), x);
        if segs.contains(x) {
            if segs.drop_last().contains(x) {
                let i = choose|i: int|
                    0 <= i < dedup_first(segs.drop_last()).len() && dedup_first(segs.drop_last())[i]
                        == x;
                assert(dedup_first(segs)[i] == x);
            } else {
                let i = choose|i: int| 0 <= i < segs.len() && segs[i] == x;
                if i < segs.len() - 1 {
                    assert(segs.drop_last()[i] == x);
                }
                assert(i == segs.len() - 1);
                assert(dedup_first(segs).last() == x);
            }
        }
        if dedup_first(segs).contains(x) {
            let i = choose|i: int| 0 <= i < dedup_first(segs).len() && dedup_first(segs)[i] == x;
            if i < dedup_first(segs.drop_last()).len() {
                assert(dedup_first(segs.drop_last())[i] == x);
                let j = choose|j: int| 0 <= j < segs.drop_last().len() && segs.drop_last()[j] == x;
                assert(segs[j] == x);
            } else {
                assert(segs.last() == x);
            }
        }
    }
}

/// Lowercases the text, splits it at the separators, keeps the tokens longer
/// than one byte, and removes later duplicates.
pub fn tokenize_lowercase_unique(text: &str) -> (r: Vec<String>)
    ensures
        r@.map_values(|s: String| s@) == dedup_first(long_tokens(split_delims(lower_of(text@)), 1)),
{
    let low = lowercase(text);
    let chars = str_chars(low.as_str());
    let segs = split_segments(&chars);
    let ghost sv = seg_views(segs@);

    // keep the tokens longer than one byte
    let mut kept: Vec<String> = Vec::new();
    let mut i: usize = 0;
    proof {
        assert(sv.skip(0) =~= sv);
        assert(kept@.map_values(|s: String| s@) + long_tokens(sv, 1) =~= long_tokens(sv, 1));
    }
    while i < segs.len()
        invariant
            i <= segs@.len(),
            sv == seg_views(segs@),
            kept@.map_values(|s: String| s@) + long_tokens(sv.skip(i as int), 1) == long_tokens(
                sv,
                1,
            ),
        decreases segs@.len() - i,
    {
        let ghost rest = sv.skip(i as int);
        proof {
            assert(rest[0] == sv[i as int]);
            assert(rest.drop_first() =~= sv.skip(i + 1 as int));
            assert(sv[i as int] == segs@[i as int]@);
        }
        let token = chars_to_string(&segs[i]);
        if byte_length(token.as_str()) > 1 {
            proof {
                assert(kept@.push(token).map_values(|s: String| s@) =~= kept@.map_values(
                    |s: String| s@,
                ) + seq![token@]);
                assert((kept@.map_values(|s: String| s@) + seq![token@]) + long_tokens(
                    rest.drop_first(),
                    1,
                ) =~= kept@.map_values(|s: String| s@) + (seq![token@] + long_tokens(
                    rest.drop_first(),
                    1,
                )));
            }
            kept.push(token);
        } else {
            proof {
                assert(Seq::<Seq<char>>::empty() + long_tokens(rest.drop_first(), 1) =~= long_tokens(
                    rest.drop_first(),
                    1,
                ));
            }
        }
        i += 1;
    }
    proof {
        assert(sv.skip(sv.len() as int) =~= Seq::<Seq<char>>::empty());
    }
    let ghost lt = long_tokens(sv, 1);
    proof {
        assert(kept@.map_values(|s: String| s@) =~= lt);
    }

    // keep only the first occurrence of each token
    let mut out: Vec<String> = Vec::new();
    let mut j: usize = 0;
    proof {
        assert(lt.take(0) =~= Seq::<Seq<char>>::empty());
    }
    while j < kept.len()
        invariant
            j <= kept@.len(),
            kept@.map_values(|s: String| s@) == lt,
            out@.map_values(|s: String| s@) == dedup_first(lt.take(j as int)),
        decreases kept@.len() - j,
    {
        let ghost prefix = lt.take(j as int);
        let mut seen = false;
        let mut k: usize = 0;
        while k < out.len()
            invariant
                k <= out@.len(),
                kept@.map_values(|s: String| s@) == lt,
                j < kept@.len(),
                out@.map_values(|s: String| s@) == dedup_first(lt.take(j as int)),
                seen ==> dedup_first(lt.take(j as int)).contains(lt[j as int]),
                !seen ==> forall|m: int| 0 <= m < k ==> #[trigger] out@[m]@ != lt[j as int],
            decreases out@.len() - k,
        {
            if out[k].as_str().len() == kept[j].as_str().len() && out[k] == kept[j] {
                proof {
                    assert(out@.map_values(|s: String| s@)[k as int] == lt[j as int]);
                }
                seen = true;
            }
            k += 1;
        }
        proof {
            assert(lt.take(j + 1 as int).drop_last() =~= prefix);
            assert(lt.take(j + 1 as int).last() == lt[j as int]);
            lemma_dedup_first_membership(prefix, lt[j as int]);
            if !seen {
                assert(!dedup_first(prefix).contains(lt[j as int])) by {
                    if dedup_first(prefix).contains(lt[j as int]) {
                        let m = choose|m: int|
                            0 <= m < dedup_first(prefix).len() && dedup_first(prefix)[m]
                                == lt[j as int];
                        assert(out@.map_values(|s: String| s@)[m] == lt[j as int]);
                        assert(out@[m]@ == lt[j as int]);
                    }
                }
            }
        }
        if !seen {
            proof {
                assert(out@.push(kept[j as int]).map_values(|s: String| s@) =~= out@.map_values(
                    |s: String| s@,
                ).push(lt[j as int]));
                assert(dedup_first(lt.take(j + 1 as int)) =~= dedup_first(prefix).push(
                    lt[j as int],
                ));
            }
            let token = kept[j].clone();
            proof {
                assert(token@ == kept[j as int]@);
            }
            out.push(token);
        } else {
            proof {
                assert(dedup_first(lt.take(j + 1 as int)) =~= dedup_first(prefix));
            }
        }
        j += 1;
    }
    proof {
        assert(lt.take(kept@.len() as int) =~= lt);
    }
    out
}

//
// Context windows for search results.
//

/// The character range `[start, end)` of the context window around
/// `pos`: up to `ws` characters on each side, with slack on one side moved
/// to the other.
pub open spec fn context_range(len: int, pos: int, ws: int) -> (int, int) {
    let start0 = if pos <= ws {
        0
    } else {
        pos - ws
    };
    let end0 = if pos + ws >= len {
        len
    } else {
        pos + ws
    };
    let start_off = if ws - pos > 0 {
        ws - pos
    } else {
        0
    };
    let end_off = if pos + ws - len > 0 {
        pos + ws - len
    } else {
        0
    };
    if start_off > 0 && end_off == 0 {
        let e = if end0 + start_off <= len {
            end0 + start_off
        } else {
            len
        };
        (start0, e)
    } else if end_off > 0 && start_off == 0 {
        let s = if start0 - end_off >= 0 {
            start0 - end_off
        } else {
            0
        };
        (s, end0)
    } else {
        (start0, end0)
    }
}

/// The window of up to `2 * window_size` characters around character
/// position `char_pos`, and the position the window starts at; slack at one
/// edge of the text widens the other side.
pub fn get_surrounding_context(text: &str, char_pos: usize, window_size: usize) -> (r: (
    String,
    usize,
))
    requires
        char_pos <= text@.len(),
        text@.len() + window_size <= usize::MAX,
    ensures
        ({
            let (s, e) = context_range(text@.len() as int, char_pos as int, window_size as int);
            r.0@ == text@.subrange(s, e) && r.1 == s
        }),
{
    let chars = str_chars(text);
    let len = chars.len();
    let start0: usize = if char_pos <= window_size {
        0
    } else {
        char_pos - window_size
    };
    let end0: usize = if char_pos + window_size >= len {
        len
    } else {
        char_pos + window_size
    };
    let start_off: usize = if window_size > char_pos {
        window_size - char_pos
    } else {
        0
    };
    let end_off: usize = if char_pos + window_size > len {
        char_pos + window_size - len
    } else {
        0
    };
    let fs: usize;
    let fe: usize;
    if start_off > 0 && end_off == 0 {
        fs = start0;
        fe = if end0 + start_off <= len {
            end0 + start_off
        } else {
            len
        };
    } else if end_off > 0 && start_off == 0 {
        fs = if start0 >= end_off {
            start0 - end_off
        } else {
            0
        };
        fe = end0;
    } else {
        fs = start0;
        fe = end0;
    }
    let window = slice_range(&chars, fs, fe);
    (chars_to_string(&window), fs)
}

//
// Line lookup by byte offset.
//

/// The width of one character's UTF-8 encoding.
pub open spec fn char_blen(c: char) -> int {
    vstd::utf8::encode_scalar(c as u32).len() as int
}

/// The UTF-8 byte length of the characters, summed from the front.
pub open spec fn utf8_len(s: Seq<char>) -> int
    decreases s.len(),
{
    if s.len() == 0 {
        0
    } else {
        char_blen(s[0]) + utf8_len(s.drop_first())
    }
}

/// The summed widths equal the length of the encoding.
proof fn lemma_utf8_len(s: Seq<char>)
    ensures
        utf8_len(s) == vstd::utf8::encode_utf8(s).len(),
    decreases s.len(),
{
    if s.len() > 0 {
        lemma_utf8_len(s.drop_first());
    }
}

/// The position after the first newline, or the end of the text.
pub open spec fn first_line_len(s: Seq<char>) -> nat
    decreases s.len(),
{
    if s.len() == 0 {
        0
    } else if s[0] == '\n' {
        1
    } else {
        1 + first_line_len(s.drop_first())
    }
}

/// A line is never longer than the text.
proof fn lemma_first_line_len_bound(s: Seq<char>)
    ensures
        first_line_len(s) <= s.len(),
        s.len() > 0 ==> first_line_len(s) >= 1,
    decreases s.len(),
{
    if s.len() > 0 && s[0] != '\n' {
        lemma_first_line_len_bound(s.drop_first());
    }
}

/// Walks the text line by line until the line whose cumulative byte length
/// reaches `bo`: the line's index, the line itself, and how many bytes of
/// `bo` fall inside it.
pub open spec fn line_lookup(s: Seq<char>, bo: int, idx: nat) -> (nat, Seq<char>, int)
    decreases s.len(),
{
    if s.len() == 0 {
        (idx, s, bo)
    } else {
        let l = if first_line_len(s) <= s.len() {
            first_line_len(s)
        } else {
            s.len()
        };
        if utf8_len(s.take(l as int)) >= bo {
            (idx, s.take(l as int), bo)
        } else {
            line_lookup(s.skip(l as int), bo - utf8_len(s.take(l as int)), idx + 1)
        }
    }
}

/// The character position that `b` bytes reach into the line, a tab counting
/// as the four spaces it is displayed as.
pub open spec fn pos_in_line(line: Seq<char>, b: int) -> int
    decreases line.len(),
{
    if b <= 0 || line.len() == 0 {
        0
    } else {
        (if line[0] == '\t' {
            4int
        } else {
            1int
        }) + pos_in_line(line.drop_first(), b - char_blen(line[0]))
    }
}

/// Whether `b` bytes end exactly on a character boundary.
pub open spec fn on_char_boundary(s: Seq<char>, b: int) -> bool {
    exists|p: int| 0 <= p <= s.len() && utf8_len(#[trigger] s.take(p)) == b
}

/// The width of one character's UTF-8 encoding.
fn char_width(c: char) -> (n: usize)
    ensures
        n == char_blen(c),
{
    let u = c as u32;
    if u < 0x80 {
        1
    } else if u < 0x800 {
        2
    } else if u < 0x10000 {
        3
    } else {
        4
    }
}

/// The line holding the given byte offset: its index, the character position
/// of the offset inside it (tabs counted as four), and the line itself, its
/// newline included.  The offset must fall on a character boundary inside
/// the text.
pub fn get_line_from_byte_offset(text: &str, byte_offset: usize) -> (r: (usize, usize, String))
    requires
        text@.len() > 0,
        byte_offset <= utf8_len(text@),
        on_char_boundary(text@, byte_offset as int),
        4 * text@.len() <= usize::MAX,
    ensures
        ({
            let (idx, line, inner) = line_lookup(text@, byte_offset as int, 0);
            r.0 == idx && r.2@ == line && r.1 == pos_in_line(line, inner)
        }),
{
    proof {
        lemma_utf8_len(text@);
    }
    let _total = byte_length(text);
    proof {
        assert(utf8_len(text@) <= usize::MAX);
    }
    let chars = str_chars(text);
    let mut cursor: usize = 0;
    let mut line_idx: usize = 0;
    let mut consumed: usize = 0;
    proof {
        assert(text@.skip(0) =~= text@);
    }
    loop
        invariant
            cursor <= chars@.len(),
            chars@ == text@,
            text@.len() > 0,
            line_idx <= cursor,
            consumed == utf8_len(text@.take(cursor as int)),
            consumed < byte_offset || (cursor == 0 && byte_offset == 0),
            byte_offset <= utf8_len(text@),
            utf8_len(text@) <= usize::MAX,
            4 * text@.len() <= usize::MAX,
            line_lookup(text@, byte_offset as int, 0) == line_lookup(
                text@.skip(cursor as int),
                byte_offset - consumed,
                line_idx as nat,
            ),
        decreases chars@.len() - cursor,
    {
        let ghost rest = text@.skip(cursor as int);
        proof {
            lemma_skip_utf8_split(text@, cursor as int);
            assert(rest.len() > 0) by {
                if rest.len() == 0 {
                    assert(text@.take(cursor as int) =~= text@);
                }
            }
        }
        // find the end of this line
        let mut e = cursor;
        while e < chars.len() && chars[e] != '\n'
            invariant
                cursor <= e <= chars@.len(),
                chars@ == text@,
                rest == text@.skip(cursor as int),
                first_line_len(rest) == (e - cursor) + first_line_len(text@.skip(e as int)),
            decreases chars@.len() - e,
        {
            proof {
                assert(text@.skip(e as int)[0] == text@[e as int]);
                assert(text@.skip(e as int).drop_first() =~= text@.skip(e + 1 as int));
            }
            e += 1;
        }
        let line_end = if e < chars.len() {
            e + 1
        } else {
            e
        };
        proof {
            if e < chars@.len() {
                assert(text@.skip(e as int)[0] == text@[e as int]);
                assert(first_line_len(text@.skip(e as int)) == 1);
            } else {
                assert(text@.skip(e as int) =~= Seq::<char>::empty());
            }
            assert(first_line_len(rest) == line_end - cursor);
            lemma_first_line_len_bound(rest);
            assert(rest.take(line_end - cursor) =~= text@.subrange(
                cursor as int,
                line_end as int,
            ));
        }
        // the bytes this line carries
        let line_bytes = sum_widths(&chars, cursor, line_end);
        proof {
            lemma_take_extend_utf8(text@, cursor as int, line_end as int);
            lemma_utf8_within(text@, 0, line_end as int);
            assert(text@.subrange(0, line_end as int) =~= text@.take(line_end as int));
            lemma_utf8_nonneg(text@.subrange(cursor as int, line_end as int));
        }
        if consumed + line_bytes >= byte_offset {
            let line = slice_range(&chars, cursor, line_end);
            let inner = byte_offset - consumed;
            let pos = position_in_line(&line, inner);
            proof {
                assert(line@ == rest.take(line_end - cursor));
            }
            return (line_idx, pos, chars_to_string(&line));
        }
        proof {
            assert(rest.skip(line_end - cursor) =~= text@.skip(line_end as int));
            lemma_take_extend_utf8(text@, cursor as int, line_end as int);
        }
        consumed = consumed + line_bytes;
        cursor = line_end;
        line_idx = line_idx + 1;
        proof {
            assert(cursor > 0);
            if cursor >= chars@.len() {
                // the offset lies beyond the last line, against the bound
                assert(text@.take(cursor as int) =~= text@);
                assert(false);
            }
        }
    }
}

/// Splitting the text at a prefix splits its byte length.
proof fn lemma_take_extend_utf8(s: Seq<char>, a: int, b: int)
    requires
        0 <= a <= b <= s.len(),
    ensures
        utf8_len(s.take(b)) == utf8_len(s.take(a)) + utf8_len(s.subrange(a, b)),
{
    lemma_utf8_concat(s.take(a), s.subrange(a, b));
    assert(s.take(a) + s.subrange(a, b) =~= s.take(b));
}

/// Byte lengths add over concatenation.
proof fn lemma_utf8_concat(a: Seq<char>, b: Seq<char>)
    ensures
        utf8_len(a + b) == utf8_len(a) + utf8_len(b),
    decreases a.len(),
{
    if a.len() == 0 {
        assert(a + b =~= b);
    } else {
        assert((a + b)[0] == a[0]);
        assert((a + b).drop_first() =~= a.drop_first() + b);
        lemma_utf8_concat(a.drop_first(), b);
    }
}

/// A suffix's byte length is the whole minus the prefix.
proof fn lemma_skip_utf8_split(s: Seq<char>, a: int)
    requires
        0 <= a <= s.len(),
    ensures
        utf8_len(s) == utf8_len(s.take(a)) + utf8_len(s.skip(a)),
{
    lemma_utf8_concat(s.take(a), s.skip(a));
    assert(s.take(a) + s.skip(a) =~= s);
}

/// The summed UTF-8 widths of the characters in positions `from..to`.
fn sum_widths(chars: &Vec<char>, from: usize, to: usize) -> (n: usize)
    requires
        from <= to <= chars@.len(),
        utf8_len(chars@) <= usize::MAX,
    ensures
        n == utf8_len(chars@.subrange(from as int, to as int)),
{
    proof {
        lemma_utf8_nonneg(chars@.subrange(from as int, to as int));
        lemma_utf8_within(chars@, from as int, to as int);
    }
    let mut n: usize = 0;
    let mut i = from;
    proof {
        assert(chars@.subrange(from as int, from as int) =~= Seq::<char>::empty());
    }
    while i < to
        invariant
            from <= i <= to <= chars@.len(),
            utf8_len(chars@) <= usize::MAX,
            n == utf8_len(chars@.subrange(from as int, i as int)),
        decreases to - i,
    {
        let w = char_width(chars[i]);
        proof {
            lemma_take_extend_utf8_sub(chars@, from as int, i as int);
            lemma_utf8_within(chars@, from as int, i + 1 as int);
        }
        n = n + w;
        i += 1;
    }
    n
}

/// Byte lengths are not negative.
proof fn lemma_utf8_nonneg(s: Seq<char>)
    ensures
        utf8_len(s) >= 0,
    decreases s.len(),
{
    if s.len() > 0 {
        lemma_utf8_nonneg(s.drop_first());
    }
}

/// Extending a subrange by one character adds that character's width.
proof fn lemma_take_extend_utf8_sub(s: Seq<char>, from: int, i: int)
    requires
        0 <= from <= i < s.len(),
    ensures
        utf8_len(s.subrange(from, i + 1)) == utf8_len(s.subrange(from, i)) + char_blen(s[i]),
{
    lemma_utf8_concat(s.subrange(from, i), seq![s[i]]);
    assert(s.subrange(from, i) + seq![s[i]] =~= s.subrange(from, i + 1));
    assert(utf8_len(seq![s[i]]) == char_blen(s[i])) by {
        assert(seq![s[i]][0] == s[i]);
        assert(seq![s[i]].drop_first() =~= Seq::<char>::empty());
        assert(utf8_len(Seq::<char>::empty()) == 0);
    }
}

/// A part weighs no more than the whole.
proof fn lemma_utf8_within(s: Seq<char>, from: int, to: int)
    requires
        0 <= from <= to <= s.len(),
    ensures
        utf8_len(s.subrange(from, to)) <= utf8_len(s),
{
    lemma_utf8_nonneg(s.take(from));
    lemma_utf8_nonneg(s.skip(to));
    lemma_utf8_concat(s.take(from), s.subrange(from, to));
    lemma_utf8_concat(s.take(from) + s.subrange(from, to), s.skip(to));
    assert((s.take(from) + s.subrange(from, to)) + s.skip(to) =~= s);
}

/// The character position `b` bytes reach into the line, tabs counted as
/// four.
fn position_in_line(line: &Vec<char>, b: usize) -> (pos: usize)
    requires
        utf8_len(line@) <= usize::MAX,
        4 * line@.len() <= usize::MAX,
    ensures
        pos == pos_in_line(line@, b as int),
{
    let mut pos: usize = 0;
    let mut left: usize = b;
    let mut i: usize = 0;
    proof {
        assert(line@.skip(0) =~= line@);
    }
    while i < line.len() && left > 0
        invariant
            i <= line@.len(),
            4 * line@.len() <= usize::MAX,
            pos <= 4 * i,
            pos_in_line(line@, b as int) == pos + pos_in_line(line@.skip(i as int), left as int),
        decreases line@.len() - i,
    {
        let ghost rest = line@.skip(i as int);
        proof {
            assert(rest[0] == line@[i as int]);
            assert(rest.drop_first() =~= line@.skip(i + 1 as int));
        }
        let c = line[i];
        let w = char_width(c);
        let step: usize = if c == '\t' {
            4
        } else {
            1
        };
        proof {
            lemma_pos_in_line_nonneg(rest.drop_first(), left - char_blen(rest[0]));
        }
        pos = pos + step;
        left = if left > w {
            left - w
        } else {
            0
        };
        i += 1;
    }
    proof {
        if i >= line@.len() {
            assert(line@.skip(i as int) =~= Seq::<char>::empty());
        }
    }
    pos
}

/// Walking past the prefix never yields a negative position.
proof fn lemma_pos_in_line_nonneg(line: Seq<char>, b: int)
    ensures
        pos_in_line(line, b) >= 0,
    decreases line.len(),
{
    if !(b <= 0 || line.len() == 0) {
        lemma_pos_in_line_nonneg(line.drop_first(), b - char_blen(line[0]))
    }
}

/// How many windows of `n` consecutive characters fit in `t`.
pub open spec fn window_count(t: Seq<char>, n: nat) -> nat {
    if t.len() >= n {
        (t.len() - n + 1) as nat
    } else {
        0
    }
}

/// All windows of `n` consecutive characters of `t`, in order.
pub open spec fn char_windows_spec(t: Seq<char>, n: nat) -> Seq<Seq<char>> {
    Seq::new(window_count(t, n), |i: int| t.subrange(i, i + n))
}

/// The hashes of all `n`-character windows of `t`, in order.
pub open spec fn ngram_hashes(t: Seq<char>, n: nat) -> Seq<u64> {
    char_windows_spec(t, n).map_values(|w: Seq<char>| hash_of(w))
}

/// The `n`-gram hashes of every token whose UTF-8 length is at least `n`,
/// in order.
pub open spec fn ngrams_of_segs(segs: Seq<Seq<char>>, n: nat) -> Seq<u64>
    decreases segs.len(),
{
    if segs.len() == 0 {
        Seq::empty()
    } else {
        (if byte_len(segs[0]) >= n {
            ngram_hashes(segs[0], n)
        } else {
            Seq::empty()
        }) + ngrams_of_segs(segs.drop_first(), n)
    }
}

/// Pushes the hashes of all `n`-character windows of `seg` onto `out`.
fn push_ngram_hashes(out: &mut Vec<u64>, seg: &Vec<char>, n: usize) -> (nothing: ())
    requires
        n >= 1,
    ensures
        final(out)@ == old(out)@ + ngram_hashes(seg@, n as nat),
{
    let ghost base = out@;
    let ghost t = seg@;
    if seg.len() < n {
        proof {
            assert(base + ngram_hashes(t, n as nat) =~= base);
        }
        return ;
    }
    let count = seg.len() - n + 1;
    let mut from: usize = 0;
    proof {
        assert(base + Seq::new(0, |w: int| hash_of(t.subrange(w, w + n))) =~= base);
    }
    while from < count
        invariant
            n >= 1,
            count == t.len() - n + 1,
            n <= t.len(),
            t.len() <= usize::MAX,
            t == seg@,
            from <= count,
            out@ == base + Seq::new(from as nat, |w: int| hash_of(t.subrange(w, w + n))),
        decreases count - from,
    {
        let window = slice_range(seg, from, from + n);
        let ws = chars_to_string(&window);
        let hv = u64_hash(ws.as_str());
        proof {
            assert(Seq::new((from + 1) as nat, |w: int| hash_of(t.subrange(w, w + n))) =~= Seq::new(
                from as nat,
                |w: int| hash_of(t.subrange(w, w + n)),
            ).push(hash_of(t.subrange(from as int, from + n))));
        }
        out.push(hv);
        from += 1;
    }
    proof {
        assert(Seq::new(count as nat, |w: int| hash_of(t.subrange(w, w + n))) =~= ngram_hashes(
            t,
            n as nat,
        ));
    }
}

/// Lowercases the text, splits it at the separators, and hashes every
/// `n`-character window of every token at least `n` bytes long.
pub fn ngram_tokenize_lowercase(text: &str, n: usize) -> (r: Vec<u64>)
    requires
        n >= 1,
    ensures
        r@ == ngrams_of_segs(split_delims(lower_of(text@)), n as nat),
{
    let low = lowercase(text);
    let chars = str_chars(low.as_str());
    let segs = split_segments(&chars);
    let ghost sv = seg_views(segs@);
    let mut out: Vec<u64> = Vec::new();
    let mut i: usize = 0;
    proof {
        assert(sv.skip(0) =~= sv);
        assert(out@ + ngrams_of_segs(sv, n as nat) =~= ngrams_of_segs(sv, n as nat));
    }
    while i < segs.len()
        invariant
            n >= 1,
            i <= segs@.len(),
            sv == seg_views(segs@),
            out@ + ngrams_of_segs(sv.skip(i as int), n as nat) == ngrams_of_segs(sv, n as nat),
        decreases segs@.len() - i,
    {
        let ghost rest = sv.skip(i as int);
        proof {
            assert(rest[0] == sv[i as int]);
            assert(rest.drop_first() =~= sv.skip(i + 1 as int));
            assert(sv[i as int] == segs@[i as int]@);
        }
        let token = chars_to_string(&segs[i]);
        if byte_length(token.as_str()) >= n {
            proof {
                assert((out@ + ngram_hashes(rest[0], n as nat)) + ngrams_of_segs(
                    rest.drop_first(),
                    n as nat,
                ) =~= out@ + (ngram_hashes(rest[0], n as nat) + ngrams_of_segs(
                    rest.drop_first(),
                    n as nat,
                )));
            }
            push_ngram_hashes(&mut out, &segs[i], n);
        } else {
            proof {
                assert(Seq::<u64>::empty() + ngrams_of_segs(rest.drop_first(), n as nat)
                    =~= ngrams_of_segs(rest.drop_first(), n as nat));
            }
        }
        i += 1;
    }
    proof {
        assert(sv.skip(sv.len() as int) =~= Seq::<Seq<char>>::empty());
    }
    out
}

/// Whether two character vectors hold the same characters.
pub(crate) fn vec_char_eq(a: &Vec<char>, b: &Vec<char>) -> (r: bool)
    ensures
        r == (a@ == b@),
{
    if a.len() != b.len() {
        return false;
    }
    let mut i: usize = 0;
    while i < a.len()
        invariant
            a@.len() == b@.len(),
            i <= a@.len(),
            forall|j: int| 0 <= j < i ==> a@[j] == b@[j],
        decreases a.len() - i,
    {
        if a[i] != b[i] {
            return false;
        }
        i += 1;
    }
    proof {
        assert(a@ =~= b@);
    }
    true
}

/// Lowercases the text, splits it at the separators, removes later duplicate
/// tokens, and hashes every `n`-character window of every remaining token at
/// least `n` bytes long.
pub fn ngram_tokenize_lowercase_unique(text: &str, n: usize) -> (r: Vec<u64>)
    requires
        n >= 1,
    ensures
        r@ == ngrams_of_segs(dedup_first(split_delims(lower_of(text@))), n as nat),
{
    let low = lowercase(text);
    let chars = str_chars(low.as_str());
    let segs = split_segments(&chars);
    let ghost sv = seg_views(segs@);

    // keep only the first occurrence of each token
    let mut uniq: Vec<Vec<char>> = Vec::new();
    let mut j: usize = 0;
    proof {
        assert(sv.take(0) =~= Seq::<Seq<char>>::empty());
    }
    while j < segs.len()
        invariant
            j <= segs@.len(),
            sv == seg_views(segs@),
            seg_views(uniq@) == dedup_first(sv.take(j as int)),
        decreases segs@.len() - j,
    {
        let ghost prefix = sv.take(j as int);
        proof {
            assert(sv[j as int] == segs@[j as int]@);
        }
        let mut seen = false;
        let mut k: usize = 0;
        while k < uniq.len()
            invariant
                k <= uniq@.len(),
                sv == seg_views(segs@),
                j < segs@.len(),
                sv[j as int] == segs@[j as int]@,
                seg_views(uniq@) == dedup_first(sv.take(j as int)),
                seen ==> dedup_first(sv.take(j as int)).contains(sv[j as int]),
                !seen ==> forall|m: int| 0 <= m < k ==> #[trigger] uniq@[m]@ != sv[j as int],
            decreases uniq@.len() - k,
        {
            if vec_char_eq(&uniq[k], &segs[j]) {
                proof {
                    assert(seg_views(uniq@)[k as int] == sv[j as int]);
                }
                seen = true;
            }
            k += 1;
        }
        proof {
            assert(sv.take(j + 1 as int).drop_last() =~= prefix);
            assert(sv.take(j + 1 as int).last() == sv[j as int]);
            lemma_dedup_first_membership(prefix, sv[j as int]);
            if !seen {
                assert(!dedup_first(prefix).contains(sv[j as int])) by {
                    if dedup_first(prefix).contains(sv[j as int]) {
                        let m = choose|m: int|
                            0 <= m < dedup_first(prefix).len() && dedup_first(prefix)[m]
                                == sv[j as int];
                        assert(seg_views(uniq@)[m] == sv[j as int]);
                        assert(uniq@[m]@ == sv[j as int]);
                    }
                }
            }
        }
        if !seen {
            let token = segs[j].clone();
            proof {
                assert(token@ == segs@[j as int]@);
                assert(seg_views(uniq@.push(token)) =~= seg_views(uniq@).push(sv[j as int]));
                assert(dedup_first(sv.take(j + 1 as int)) =~= dedup_first(prefix).push(
                    sv[j as int],
                ));
            }
            uniq.push(token);
        } else {
            proof {
                assert(dedup_first(sv.take(j + 1 as int)) =~= dedup_first(prefix));
            }
        }
        j += 1;
    }
    proof {
        assert(sv.take(segs@.len() as int) =~= sv);
    }
    let ghost uv = seg_views(uniq@);

    // hash the n-grams of the kept tokens
    let mut out: Vec<u64> = Vec::new();
    let mut i: usize = 0;
    proof {
        assert(uv.skip(0) =~= uv);
        assert(out@ + ngrams_of_segs(uv, n as nat) =~= ngrams_of_segs(uv, n as nat));
    }
    while i < uniq.len()
        invariant
            n >= 1,
            i <= uniq@.len(),
            uv == seg_views(uniq@),
            out@ + ngrams_of_segs(uv.skip(i as int), n as nat) == ngrams_of_segs(uv, n as nat),
        decreases uniq@.len() - i,
    {
        let ghost rest = uv.skip(i as int);
        proof {
            assert(rest[0] == uv[i as int]);
            assert(rest.drop_first() =~= uv.skip(i + 1 as int));
            assert(uv[i as int] == uniq@[i as int]@);
        }
        let token = chars_to_string(&uniq[i]);
        if byte_length(token.as_str()) >= n {
            proof {
                assert((out@ + ngram_hashes(rest[0], n as nat)) + ngrams_of_segs(
                    rest.drop_first(),
                    n as nat,
                ) =~= out@ + (ngram_hashes(rest[0], n as nat) + ngrams_of_segs(
                    rest.drop_first(),
                    n as nat,
                )));
            }
            push_ngram_hashes(&mut out, &uniq[i], n);
        } else {
            proof {
                assert(Seq::<u64>::empty() + ngrams_of_segs(rest.drop_first(), n as nat)
                    =~= ngrams_of_segs(rest.drop_first(), n as nat));
            }
        }
        i += 1;
    }
    proof {
        assert(uv.skip(uv.len() as int) =~= Seq::<Seq<char>>::empty());
    }
    out
}

} // verus!
