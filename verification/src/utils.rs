//! String and byte utilities shared by the index, sync and filter engines:
//! the semicolon-joined list encoding used by the tag indices, substring
//! search for filter predicates, and small character helpers.

use vstd::prelude::*;
use vstd::slice::slice_to_vec;

verus! {

/// ASCII code of semicolon, the delimiter of the on-disk index lists.
pub const SEMICOLON: u8 = 59;

/// Relies on str::chars: yields the characters of the string in order.
#[verifier::external_body]
pub fn to_chars(s: &str) -> (r: Vec<char>)
    ensures
        r@ == s@,
{
    s.chars().collect()
}

/// Relies on String's FromIterator over char: builds the string whose
/// characters are exactly the given ones, in order.
#[verifier::external_body]
pub fn from_chars(v: &Vec<char>) -> (r: String)
    ensures
        r@ == v@,
{
    v.iter().collect()
}

/// Index of the first occurrence of `sep` in `s`, or `s.len()` if absent.
pub open spec fn first_sep(s: Seq<char>, sep: char) -> int
    decreases s.len(),
{
    if s.len() == 0 {
        0
    } else if s[0] == sep {
        0
    } else {
        1 + first_sep(s.skip(1), sep)
    }
}

pub proof fn lemma_first_sep(s: Seq<char>, sep: char)
    ensures
        0 <= first_sep(s, sep) <= s.len(),
        forall|i: int| 0 <= i < first_sep(s, sep) ==> s[i] != sep,
        first_sep(s, sep) < s.len() ==> s[first_sep(s, sep)] == sep,
    decreases s.len(),
{
    if s.len() > 0 && s[0] != sep {
        lemma_first_sep(s.skip(1), sep);
        assert forall|i: int| 0 <= i < first_sep(s, sep) implies s[i] != sep by {
            if i > 0 {
                assert(s.skip(1)[i - 1] == s[i]);
            }
        }
        if first_sep(s, sep) < s.len() {
            assert(s.skip(1)[first_sep(s.skip(1), sep)] == s[first_sep(s, sep)]);
        }
    }
}

/// Splits `s` at every occurrence of `sep`; always yields at least one part.
pub open spec fn split_seq(s: Seq<char>, sep: char) -> Seq<Seq<char>>
    decreases s.len(),
    via split_seq_dec
{
    let i = first_sep(s, sep);
    if i == s.len() {
        seq![s]
    } else {
        seq![s.take(i)] + split_seq(s.skip(i + 1), sep)
    }
}

#[via_fn]
proof fn split_seq_dec(s: Seq<char>, sep: char) {
    lemma_first_sep(s, sep);
}

/// Joins parts with `sep` between consecutive parts.
pub open spec fn join_seq(parts: Seq<Seq<char>>, sep: char) -> Seq<char>
    decreases parts.len(),
{
    if parts.len() == 0 {
        Seq::empty()
    } else if parts.len() == 1 {
        parts[0]
    } else {
        parts[0] + seq![sep] + join_seq(parts.skip(1), sep)
    }
}

/// True when no character of `s` is `sep`.
pub open spec fn sep_free(s: Seq<char>, sep: char) -> bool {
    forall|i: int| 0 <= i < s.len() ==> s[i] != sep
}

pub proof fn lemma_split_basic(s: Seq<char>, sep: char)
    ensures
        split_seq(s, sep).len() >= 1,
        forall|k: int|
            0 <= k < split_seq(s, sep).len() ==> sep_free(#[trigger] split_seq(s, sep)[k], sep),
    decreases s.len(),
{
    let i = first_sep(s, sep);
    lemma_first_sep(s, sep);
    if i < s.len() {
        lemma_split_basic(s.skip(i + 1), sep);
        assert forall|k: int| 0 <= k < split_seq(s, sep).len() implies sep_free(
            #[trigger] split_seq(s, sep)[k],
            sep,
        ) by {
            if k == 0 {
                assert(forall|j: int| 0 <= j < i ==> s.take(i)[j] == s[j]);
            } else {
                assert(split_seq(s, sep)[k] == split_seq(s.skip(i + 1), sep)[k - 1]);
            }
        }
    }
}

/// Joining the split of `s` gives `s` back.
pub proof fn lemma_join_split(s: Seq<char>, sep: char)
    ensures
        join_seq(split_seq(s, sep), sep) == s,
    decreases s.len(),
{
    let i = first_sep(s, sep);
    lemma_first_sep(s, sep);
    if i == s.len() {
        assert(join_seq(seq![s], sep) == s);
    } else {
        lemma_join_split(s.skip(i + 1), sep);
        let parts = seq![s.take(i)] + split_seq(s.skip(i + 1), sep);
        lemma_split_basic(s.skip(i + 1), sep);
        assert(parts.skip(1) =~= split_seq(s.skip(i + 1), sep));
        assert(parts[0] == s.take(i));
        assert(join_seq(parts, sep) == s.take(i) + seq![sep] + s.skip(i + 1));
        assert(s.take(i) + seq![sep] + s.skip(i + 1) =~= s);
    }
}

/// Splitting a join of separator-free, at-least-one parts gives the parts back.
pub proof fn lemma_split_join(parts: Seq<Seq<char>>, sep: char)
    requires
        parts.len() >= 1,
        forall|k: int| 0 <= k < parts.len() ==> sep_free(#[trigger] parts[k], sep),
    ensures
        split_seq(join_seq(parts, sep), sep) == parts,
    decreases parts.len(),
{
    if parts.len() == 1 {
        let s = parts[0];
        lemma_first_sep_absent(s, sep);
        assert(split_seq(s, sep) =~= parts);
    } else {
        let s = join_seq(parts, sep);
        let head = parts[0];
        let rest = join_seq(parts.skip(1), sep);
        assert(s == head + seq![sep] + rest);
        lemma_first_sep_prefix(head, seq![sep] + rest, sep);
        assert(head + (seq![sep] + rest) =~= head + seq![sep] + rest);
        let i = first_sep(s, sep);
        assert(i == head.len());
        assert(i < s.len());
        assert(s.take(i) =~= head);
        assert(s.skip(i + 1) =~= rest);
        assert(forall|k: int| 0 <= k < parts.skip(1).len() ==> sep_free(#[trigger] parts.skip(1)[k], sep));
        lemma_split_join(parts.skip(1), sep);
        assert(split_seq(s, sep) =~= seq![head] + parts.skip(1));
        assert(seq![head] + parts.skip(1) =~= parts);
    }
}

/// In a separator-free string the first separator index is the length.
pub proof fn lemma_first_sep_absent(s: Seq<char>, sep: char)
    requires
        sep_free(s, sep),
    ensures
        first_sep(s, sep) == s.len(),
    decreases s.len(),
{
    if s.len() > 0 {
        assert(forall|i: int| 0 <= i < s.skip(1).len() ==> s.skip(1)[i] == s[i + 1]);
        lemma_first_sep_absent(s.skip(1), sep);
    }
}

/// With a separator-free prefix followed by the separator, the first
/// separator index is the prefix length.
pub proof fn lemma_first_sep_prefix(head: Seq<char>, tail: Seq<char>, sep: char)
    requires
        sep_free(head, sep),
        tail.len() >= 1,
        tail[0] == sep,
    ensures
        first_sep(head + tail, sep) == head.len(),
    decreases head.len(),
{
    let s = head + tail;
    if head.len() == 0 {
        assert(s[0] == sep);
    } else {
        assert(s[0] == head[0]);
        assert(s.skip(1) =~= head.skip(1) + tail);
        assert(forall|i: int| 0 <= i < head.skip(1).len() ==> head.skip(1)[i] == head[i + 1]);
        lemma_first_sep_prefix(head.skip(1), tail, sep);
    }
}

/// Splitting across an explicit separator splits each side separately.
pub proof fn lemma_split_concat(a: Seq<char>, b: Seq<char>, sep: char)
    ensures
        split_seq(a + seq![sep] + b, sep) == split_seq(a, sep) + split_seq(b, sep),
    decreases a.len(),
{
    let s = a + seq![sep] + b;
    let i = first_sep(a, sep);
    lemma_first_sep(a, sep);
    if i == a.len() {
        lemma_first_sep_prefix(a, seq![sep] + b, sep);
        assert(a + (seq![sep] + b) =~= a + seq![sep] + b);
        assert(first_sep(s, sep) == a.len());
        assert(first_sep(s, sep) < s.len());
        assert(s.take(a.len() as int) =~= a);
        assert(s.skip(a.len() as int + 1) =~= b);
        assert(split_seq(a, sep) == seq![a]);
        assert(split_seq(s, sep) =~= seq![a] + split_seq(b, sep));
    } else {
        let a1 = a.skip(i + 1);
        assert(s.skip(i + 1) =~= a1 + seq![sep] + b);
        lemma_split_concat(a1, b, sep);
        assert(forall|j: int| 0 <= j < i ==> s[j] == a[j]);
        lemma_first_sep_same_prefix(a, s, i, sep);
        assert(first_sep(s, sep) == i);
        assert(s.take(i) =~= a.take(i));
        assert(split_seq(s, sep) == seq![a.take(i)] + (split_seq(a1, sep) + split_seq(b, sep)));
        assert(seq![a.take(i)] + (split_seq(a1, sep) + split_seq(b, sep)) =~= (seq![a.take(i)]
            + split_seq(a1, sep)) + split_seq(b, sep));
    }
}

/// Two strings that agree up to and including position `i`, where the first
/// separator of the first lies at `i`, share that first separator index.
proof fn lemma_first_sep_same_prefix(a: Seq<char>, s: Seq<char>, i: int, sep: char)
    requires
        first_sep(a, sep) == i,
        i < a.len(),
        s.len() >= a.len(),
        forall|j: int| 0 <= j <= i ==> s[j] == a[j],
    ensures
        first_sep(s, sep) == i,
    decreases i,
{
    lemma_first_sep(a, sep);
    if i == 0 {
        assert(s[0] == sep);
    } else {
        assert(s[0] == a[0]);
        assert(a.skip(1).len() > 0);
        assert(first_sep(a, sep) == 1 + first_sep(a.skip(1), sep));
        assert(forall|j: int| 0 <= j < a.skip(1).len() ==> a.skip(1)[j] == a[j + 1]);
        assert(forall|j: int| 0 <= j < s.skip(1).len() ==> s.skip(1)[j] == s[j + 1]);
        assert(first_sep(a.skip(1), sep) == i - 1);
        lemma_first_sep_same_prefix(a.skip(1), s.skip(1), i - 1, sep);
    }
}

/// The views of a vector of strings.
pub open spec fn views_of(v: Seq<String>) -> Seq<Seq<char>> {
    v.map_values(|s: String| s@)
}

/// Splits a semicolon-joined index value into its parts.
///
/// Always returns at least one part; a part may be empty.
pub fn split_ids(s: &str) -> (r: Vec<String>)
    ensures
        views_of(r@) == split_seq(s@, ';'),
{
    let chars = to_chars(s);
    let mut out: Vec<String> = Vec::new();
    let mut cur: Vec<char> = Vec::new();
    let mut i: usize = 0;
    proof {
        assert(cur@ + chars@.skip(0) =~= chars@);
    }
    while i < chars.len()
        invariant
            0 <= i <= chars@.len(),
            sep_free(cur@, ';'),
            split_seq(chars@, ';') == views_of(out@) + split_seq(cur@ + chars@.skip(i as int), ';'),
        decreases chars@.len() - i,
    {
        let c = chars[i];
        if c == ';' {
            proof {
                let tail = chars@.skip(i + 1);
                assert(cur@ + chars@.skip(i as int) =~= cur@ + seq![';'] + tail);
                lemma_split_concat(cur@, tail, ';');
                lemma_first_sep_absent(cur@, ';');
                assert(split_seq(cur@, ';') == seq![cur@]);
                assert(views_of(out@) + (seq![cur@] + split_seq(tail, ';')) =~= (views_of(out@)
                    + seq![cur@]) + split_seq(tail, ';'));
            }
            let part = from_chars(&cur);
            let ghost old_out = out@;
            out.push(part);
            proof {
                assert(views_of(out@) =~= views_of(old_out) + seq![cur@]);
            }
            cur = Vec::new();
        } else {
            let ghost old_cur = cur@;
            cur.push(c);
            proof {
                assert(old_cur + chars@.skip(i as int) =~= cur@ + chars@.skip(i + 1));
            }
        }
        i = i + 1;
    }
    proof {
        assert(cur@ + chars@.skip(i as int) =~= cur@);
        lemma_first_sep_absent(cur@, ';');
        assert(split_seq(cur@, ';') == seq![cur@]);
    }
    let part = from_chars(&cur);
    let ghost old_out = out@;
    out.push(part);
    proof {
        assert(views_of(out@) =~= views_of(old_out) + seq![cur@]);
        assert(views_of(out@) =~= split_seq(chars@, ';'));
    }
    out
}

/// Joins strings with semicolons into one index value.
pub fn join_ids(ids: &Vec<String>) -> (r: String)
    ensures
        r@ == join_seq(views_of(ids@), ';'),
{
    join_strings(ids, ';')
}

/// Joins strings with the given separator between consecutive parts.
pub fn join_strings(ids: &Vec<String>, sep: char) -> (r: String)
    ensures
        r@ == join_seq(views_of(ids@), sep),
{
    let mut out: Vec<char> = Vec::new();
    let mut k: usize = 0;
    while k < ids.len()
        invariant
            0 <= k <= ids@.len(),
            out@ == join_seq(views_of(ids@.take(k as int)), sep),
        decreases ids@.len() - k,
    {
        let ghost pre = out@;
        if k > 0 {
            out.push(sep);
        }
        let part = to_chars(ids[k].as_str());
        let mut j: usize = 0;
        while j < part.len()
            invariant
                0 <= j <= part@.len(),
                part@ == ids@[k as int]@,
                k < ids@.len(),
                out@ == (if k == 0 {
                    pre
                } else {
                    pre + seq![sep]
                }) + part@.take(j as int),
            decreases part@.len() - j,
        {
            out.push(part[j]);
            proof {
                assert(part@.take(j + 1) =~= part@.take(j as int).push(part@[j as int]));
            }
            j = j + 1;
        }
        proof {
            assert(part@.take(part@.len() as int) =~= part@);
            lemma_join_push(views_of(ids@.take(k as int)), ids@[k as int]@, sep);
            assert(views_of(ids@.take(k + 1)) =~= views_of(ids@.take(k as int)).push(
                ids@[k as int]@,
            ));
        }
        k = k + 1;
    }
    proof {
        assert(ids@.take(ids@.len() as int) =~= ids@);
    }
    from_chars(&out)
}

/// Appending one more part to a join appends a separator and the part
/// (or is just the part, when there was nothing yet).
pub proof fn lemma_join_push(parts: Seq<Seq<char>>, p: Seq<char>, sep: char)
    ensures
        join_seq(parts.push(p), sep) == if parts.len() == 0 {
            p
        } else {
            join_seq(parts, sep) + seq![sep] + p
        },
    decreases parts.len(),
{
    let whole = parts.push(p);
    if parts.len() == 0 {
        assert(whole.len() == 1);
        assert(whole[0] == p);
    } else if parts.len() == 1 {
        assert(whole.skip(1) =~= seq![p]);
        assert(join_seq(whole, sep) == whole[0] + seq![sep] + join_seq(seq![p], sep));
        assert(whole[0] == parts[0]);
        assert(join_seq(parts, sep) == parts[0]);
    } else {
        assert(whole.skip(1) =~= parts.skip(1).push(p));
        lemma_join_push(parts.skip(1), p, sep);
        assert(join_seq(whole, sep) == whole[0] + seq![sep] + join_seq(parts.skip(1).push(p), sep));
        assert(join_seq(parts.skip(1).push(p), sep) == join_seq(parts.skip(1), sep) + seq![sep]
            + p);
        assert(whole[0] == parts[0]);
        assert(parts[0] + seq![sep] + (join_seq(parts.skip(1), sep) + seq![sep] + p) =~= (parts[0]
            + seq![sep] + join_seq(parts.skip(1), sep)) + seq![sep] + p);
    }
}

/// If key exists, add value to existing values - join with a semicolon.
///
/// This is the storage-level merge the index used to lean on; the index
/// engine now reads, modifies and writes full lists instead, so that a
/// later update can deduplicate, but the merge itself is kept as the
/// reference for what the appended encoding looks like.
pub fn merge_index(_key: &[u8], old_indices: Option<&[u8]>, new_index: &[u8]) -> (r: Option<
    Vec<u8>,
>)
    ensures
        r is Some,
        r->Some_0@ == match old_indices {
            Some(o) => if o@.len() > 0 {
                o@ + seq![SEMICOLON] + new_index@
            } else {
                new_index@
            },
            None => new_index@,
        },
{
    let mut ret: Vec<u8> = match old_indices {
        Some(o) => slice_to_vec(o),
        None => Vec::new(),
    };
    if ret.len() > 0 {
        ret.push(SEMICOLON);
    }
    let mut i: usize = 0;
    let ghost mid = ret@;
    while i < new_index.len()
        invariant
            0 <= i <= new_index@.len(),
            ret@ == mid + new_index@.take(i as int),
        decreases new_index@.len() - i,
    {
        ret.push(new_index[i]);
        proof {
            assert(new_index@.take(i + 1) =~= new_index@.take(i as int).push(new_index@[i as int]));
        }
        i = i + 1;
    }
    proof {
        assert(new_index@.take(new_index@.len() as int) =~= new_index@);
    }
    Some(ret)
}

/// True when every character of `s` is an ASCII space, tab, line feed or
/// carriage return; the empty string is blank.
pub open spec fn is_blank(s: Seq<char>) -> bool {
    forall|i: int| 0 <= i < s.len() ==> is_space(#[trigger] s[i])
}

/// The whitespace characters recognised when folding blank tags away.
pub open spec fn is_space(c: char) -> bool {
    c == ' ' || c == '\t' || c == '\n' || c == '\r'
}

/// Whether the string is empty or all whitespace.
pub fn blank(s: &str) -> (r: bool)
    ensures
        r == is_blank(s@),
{
    let cs = to_chars(s);
    let mut i: usize = 0;
    while i < cs.len()
        invariant
            0 <= i <= cs@.len(),
            cs@ == s@,
            forall|k: int| 0 <= k < i ==> is_space(#[trigger] s@[k]),
        decreases cs@.len() - i,
    {
        let c = cs[i];
        if !(c == ' ' || c == '\t' || c == '\n' || c == '\r') {
            return false;
        }
        i = i + 1;
    }
    true
}

/// True when `pat` occurs in `s` as a contiguous substring.
pub open spec fn is_substring(pat: Seq<char>, s: Seq<char>) -> bool {
    exists|i: int| 0 <= i <= s.len() - pat.len() && #[trigger] s.subrange(i, i + pat.len()) == pat
}

/// Substring search: does `s` contain `pat`?
pub fn contains_pattern(s: &str, pat: &str) -> (r: bool)
    ensures
        r == is_substring(pat@, s@),
{
    let sc = to_chars(s);
    let pc = to_chars(pat);
    let n = sc.len();
    let m = pc.len();
    if m > n {
        proof {
            assert(!is_substring(pat@, s@));
        }
        return false;
    }
    let mut i: usize = 0;
    while i <= n - m
        invariant
            n == sc@.len(),
            m == pc@.len(),
            m <= n,
            0 <= i <= n - m + 1,
            sc@ == s@,
            pc@ == pat@,
            forall|k: int| 0 <= k < i ==> #[trigger] s@.subrange(k, k + pat@.len()) != pat@,
        decreases n - m - i + 1,
    {
        let mut j: usize = 0;
        let mut ok = true;
        proof {
            assert(s@.subrange(i as int, i as int) =~= pat@.take(0));
        }
        while j < m
            invariant
                n == sc@.len(),
                m == pc@.len(),
                m <= n,
                0 <= i <= n - m,
                0 <= j <= m,
                sc@ == s@,
                pc@ == pat@,
                ok == (s@.subrange(i as int, i as int + j as int) == pat@.take(j as int)),
            decreases m - j,
        {
            let ghost pre_ok = ok;
            if sc[i + j] != pc[j] {
                ok = false;
            }
            proof {
                let a = s@.subrange(i as int, i + j + 1);
                let b = pat@.take(j + 1);
                assert(a =~= s@.subrange(i as int, i as int + j as int).push(s@[i + j]));
                assert(b =~= pat@.take(j as int).push(pat@[j as int]));
                if pre_ok && sc@[i + j] == pc@[j as int] {
                    assert(a =~= b);
                } else if a == b {
                    assert(a.drop_last() =~= s@.subrange(i as int, i as int + j as int));
                    assert(b.drop_last() =~= pat@.take(j as int));
                    assert(a.last() == b.last());
                    assert(false);
                }
            }
            j = j + 1;
        }
        proof {
            assert(pat@.take(pat@.len() as int) =~= pat@);
        }
        if ok {
            proof {
                assert(s@.subrange(i as int, i as int + pat@.len() as int) == pat@);
            }
            return true;
        }
        i = i + 1;
    }
    proof {
        if is_substring(pat@, s@) {
            let w = choose|w: int| 0 <= w <= s@.len() - pat@.len() && #[trigger] s@.subrange(
                w,
                w + pat@.len(),
            ) == pat@;
            assert(s@.subrange(w, w + pat@.len()) != pat@);
        }
    }
    false
}

/// Whether the string holds the list separator.
pub fn has_semicolon(s: &str) -> (r: bool)
    ensures
        r == !sep_free(s@, ';'),
{
    let cs = to_chars(s);
    let mut i: usize = 0;
    while i < cs.len()
        invariant
            0 <= i <= cs@.len(),
            cs@ == s@,
            forall|k: int| 0 <= k < i ==> s@[k] != ';',
        decreases cs@.len() - i,
    {
        if cs[i] == ';' {
            return true;
        }
        i = i + 1;
    }
    false
}

/// Whether one of the strings has this view.
pub fn contains_string(v: &Vec<String>, s: &String) -> (r: bool)
    ensures
        r == views_of(v@).contains(s@),
{
    let mut i: usize = 0;
    while i < v.len()
        invariant
            0 <= i <= v@.len(),
            forall|k: int| 0 <= k < i ==> v@[k]@ != s@,
        decreases v@.len() - i,
    {
        if v[i].eq(s) {
            proof {
                assert(views_of(v@)[i as int] == s@);
            }
            return true;
        }
        i = i + 1;
    }
    proof {
        if views_of(v@).contains(s@) {
            let w = choose|w: int| 0 <= w < views_of(v@).len() && views_of(v@)[w] == s@;
            assert(v@[w]@ == s@);
        }
    }
    false
}

/// What url::Url::parse yields for a string: the scheme and the
/// serialization after it, or nothing when the string is no absolute URL.
/// The parse depends on its input alone.
pub uninterp spec fn url_parts(s: Seq<char>) -> Option<(Seq<char>, Seq<char>)>;

/// Relies on url::Url::parse, Url::scheme and Url's indexing by
/// url::Position: splits a parseable URI into its (lowercased) scheme and
/// everything serialized after the scheme.
#[verifier::external_body]
fn parse_url_parts(uri: &str) -> (r: Option<(String, String)>)
    ensures
        r is Some <==> url_parts(uri@) is Some,
        r matches Some(p) ==> url_parts(uri@) == Some((p.0@, p.1@)),
{
    match url::Url::parse(uri) {
        Ok(parsed) => {
            let scheme = parsed.scheme().to_string();
            let rest = parsed[url::Position::AfterScheme..].to_string();
            Some((scheme, rest))
        },
        Err(_) => None,
    }
}

/// Whether the string starts with the scheme separator.
pub open spec fn starts_with_sep(s: Seq<char>) -> bool {
    s.len() >= 3 && s[0] == ':' && s[1] == '/' && s[2] == '/'
}

/// The string with every leading scheme separator stripped.
pub open spec fn strip_scheme_seps(s: Seq<char>) -> Seq<char>
    decreases s.len(),
{
    if starts_with_sep(s) {
        strip_scheme_seps(s.skip(3))
    } else {
        s
    }
}

/// The string with every trailing slash stripped.
pub open spec fn strip_trailing_slashes(s: Seq<char>) -> Seq<char>
    decreases s.len(),
{
    if s.len() > 0 && s.last() == '/' {
        strip_trailing_slashes(s.drop_last())
    } else {
        s
    }
}

/// What `clean_uri` answers: a parseable, non-urn URI loses its scheme, the
/// separator after it and any trailing slashes; anything else is unchanged.
pub open spec fn cleaned_uri(u: Seq<char>) -> Seq<char> {
    match url_parts(u) {
        Some(p) => if p.0 == "urn"@ {
            u
        } else {
            strip_trailing_slashes(strip_scheme_seps(p.1))
        },
        None => u,
    }
}

/// Strips the scheme and trailing slashes from a parseable URI, for display
/// and file naming; URNs and unparseable strings come back unchanged.
pub fn clean_uri(uri: &str) -> (r: String)
    ensures
        r@ == cleaned_uri(uri@),
{
    match parse_url_parts(uri) {
        Some(p) => {
            let (scheme, rest) = p;
            let urn = String::from_str("urn");
            if scheme.eq(&urn) {
                proof {
                    reveal_strlit("urn");
                }
                String::from_str(uri)
            } else {
                proof {
                    reveal_strlit("urn");
                }
                let cs = to_chars(rest.as_str());
                let mut start: usize = 0;
                proof {
                    assert(cs@.skip(0) =~= cs@);
                }
                while cs.len() - start >= 3 && cs[start] == ':' && cs[start + 1] == '/' && cs[start
                    + 2] == '/'
                    invariant
                        0 <= start <= cs@.len(),
                        cs@ == rest@,
                        strip_scheme_seps(rest@) == strip_scheme_seps(cs@.skip(start as int)),
                    decreases cs@.len() - start,
                {
                    proof {
                        assert(starts_with_sep(cs@.skip(start as int)));
                        assert(cs@.skip(start as int).skip(3) =~= cs@.skip(start + 3));
                    }
                    start = start + 3;
                }
                proof {
                    assert(!starts_with_sep(cs@.skip(start as int)));
                    assert(strip_scheme_seps(rest@) == cs@.skip(start as int));
                }
                let mut stop: usize = cs.len();
                while stop > start && cs[stop - 1] == '/'
                    invariant
                        start <= stop <= cs@.len(),
                        cs@ == rest@,
                        strip_scheme_seps(rest@) == cs@.skip(start as int),
                        strip_trailing_slashes(cs@.skip(start as int)) == strip_trailing_slashes(
                            cs@.subrange(start as int, stop as int),
                        ),
                    decreases stop,
                {
                    proof {
                        let cur = cs@.subrange(start as int, stop as int);
                        assert(cur.last() == cs@[stop - 1]);
                        assert(cur.drop_last() =~= cs@.subrange(start as int, stop - 1));
                    }
                    stop = stop - 1;
                }
                proof {
                    let cur = cs@.subrange(start as int, stop as int);
                    if cur.len() > 0 {
                        assert(cur.last() == cs@[stop - 1]);
                    }
                    assert(strip_trailing_slashes(cur) == cur);
                    assert(cs@.skip(start as int) =~= cs@.subrange(start as int, cs@.len() as int));
                }
                let mut out: Vec<char> = Vec::new();
                let mut k: usize = start;
                while k < stop
                    invariant
                        start <= k <= stop <= cs@.len(),
                        out@ == cs@.subrange(start as int, k as int),
                    decreases stop - k,
                {
                    out.push(cs[k]);
                    proof {
                        assert(cs@.subrange(start as int, k + 1) =~= cs@.subrange(
                            start as int,
                            k as int,
                        ).push(cs@[k as int]));
                    }
                    k = k + 1;
                }
                from_chars(&out)
            }
        },
        None => String::from_str(uri),
    }
}

/// The character-level transform behind `uri_to_filename`: each scheme
/// separator becomes one underscore, and every dot, slash and colon becomes
/// an underscore.
pub open spec fn filename_chars(s: Seq<char>) -> Seq<char>
    decreases s.len(),
{
    if s.len() == 0 {
        Seq::empty()
    } else if starts_with_sep(s) {
        seq!['_'] + filename_chars(s.skip(3))
    } else {
        (if s[0] == '.' || s[0] == '/' || s[0] == ':' {
            seq!['_']
        } else {
            seq![s[0]]
        }) + filename_chars(s.skip(1))
    }
}

/// Converts a URI into something that can be used as a folder/filename.
pub fn uri_to_filename(uri: &str) -> (r: String)
    ensures
        r@ == filename_chars(cleaned_uri(uri@)),
{
    let cleaned = clean_uri(uri);
    let cs = to_chars(cleaned.as_str());
    let mut out: Vec<char> = Vec::new();
    let mut i: usize = 0;
    proof {
        assert(cs@.skip(0) =~= cs@);
        assert(out@ + filename_chars(cs@) =~= filename_chars(cs@));
    }
    while i < cs.len()
        invariant
            0 <= i <= cs@.len(),
            cs@ == cleaned_uri(uri@),
            filename_chars(cs@) == out@ + filename_chars(cs@.skip(i as int)),
        decreases cs@.len() - i,
    {
        let ghost pre = out@;
        let ghost restg = cs@.skip(i as int);
        proof {
            assert(restg[0] == cs@[i as int]);
        }
        if cs.len() - i >= 3 && cs[i] == ':' && cs[i + 1] == '/' && cs[i + 2] == '/' {
            proof {
                assert(starts_with_sep(restg));
                assert(restg.skip(3) =~= cs@.skip(i + 3));
            }
            out.push('_');
            proof {
                assert(out@ =~= pre + seq!['_']);
                assert(pre + seq!['_'] + filename_chars(cs@.skip(i + 3)) =~= pre + (seq!['_']
                    + filename_chars(cs@.skip(i + 3))));
            }
            i = i + 3;
        } else {
            proof {
                assert(!starts_with_sep(restg)) by {
                    if starts_with_sep(restg) {
                        assert(restg[1] == cs@[i + 1] && restg[2] == cs@[i + 2]);
                    }
                }
                assert(restg.skip(1) =~= cs@.skip(i + 1));
            }
            let c = cs[i];
            let rc: char = if c == '.' || c == '/' || c == ':' {
                '_'
            } else {
                c
            };
            out.push(rc);
            proof {
                assert(out@ =~= pre + seq![rc]);
                assert(pre + seq![rc] + filename_chars(cs@.skip(i + 1)) =~= pre + (seq![rc]
                    + filename_chars(cs@.skip(i + 1))));
            }
            i = i + 1;
        }
    }
    proof {
        assert(cs@.skip(cs@.len() as int) =~= Seq::<char>::empty());
        assert(out@ + Seq::<char>::empty() =~= out@);
    }
    from_chars(&out)
}

} // verus!
